use bal_daemon::verify::{
    block_bal_stats, check_content, payload_content, verify_bal_payload, ListedAccount, ListedSlot,
    PayloadContent, PayloadError, PayloadFault,
};
use bal_daemon::{AccountAccessListEncode, BlockAccessListEncode, StorageAccessItem};
use rlp::Rlp;

#[test]
fn test_rlp_round_trip() {
    let original = BlockAccessListEncode {
        version: 0,
        number: 12_345_678,
        hash: [0xab; 32],
        sign_data: Vec::new(),
        accounts: vec![AccountAccessListEncode {
            tx_index: 0,
            address: [0xcd; 20],
            storage_items: vec![
                StorageAccessItem {
                    tx_index: 0,
                    dirty: false,
                    key: [0x11; 32],
                    value: [0x00; 32],
                },
                StorageAccessItem {
                    tx_index: 0,
                    dirty: true,
                    key: [0x22; 32],
                    value: [0x00; 32],
                },
            ],
        }],
    };

    let encoded = original.rlp_encode();
    let decoded = Rlp::new(&encoded);

    let version: u32 = decoded
        .val_at(0)
        .expect("failed to decode version from RLP payload");
    assert_eq!(version, 0, "version mismatch after RLP round trip");

    let number: u64 = decoded
        .val_at(1)
        .expect("failed to decode block number from RLP payload");
    assert_eq!(
        number, 12_345_678,
        "block number mismatch after RLP round trip"
    );

    let hash: Vec<u8> = decoded
        .val_at(2)
        .expect("failed to decode block hash from RLP payload");
    assert_eq!(
        hash,
        original.hash.to_vec(),
        "block hash mismatch after RLP round trip"
    );

    let accounts = decoded
        .at(4)
        .expect("failed to decode accounts list from RLP payload");
    assert_eq!(
        accounts
            .item_count()
            .expect("failed to count accounts in RLP"),
        1,
        "accounts length mismatch after RLP round trip"
    );

    let first_account = accounts
        .at(0)
        .expect("failed to decode first account from RLP payload");
    let account_tx_index: u32 = first_account
        .val_at(0)
        .expect("failed to decode account tx_index from RLP payload");
    assert_eq!(
        account_tx_index, 0,
        "account tx_index mismatch after RLP round trip"
    );

    let account_address: Vec<u8> = first_account
        .val_at(1)
        .expect("failed to decode account address from RLP payload");
    assert_eq!(
        account_address,
        original.accounts[0].address.to_vec(),
        "account address mismatch after RLP round trip"
    );

    let storage_items = first_account
        .at(2)
        .expect("failed to decode storage items from RLP payload");
    assert_eq!(
        storage_items
            .item_count()
            .expect("failed to count storage items in RLP"),
        2,
        "storage item count mismatch after RLP round trip"
    );

    let first_storage_item = storage_items
        .at(0)
        .expect("failed to decode first storage item from RLP payload");
    let first_storage_tx_index: u32 = first_storage_item
        .val_at(0)
        .expect("failed to decode first storage tx_index from RLP payload");
    assert_eq!(
        first_storage_tx_index, 0,
        "first storage tx_index mismatch after RLP round trip"
    );
    let first_storage_dirty: u8 = first_storage_item
        .val_at(1)
        .expect("failed to decode first storage dirty flag from RLP payload");
    assert_eq!(
        first_storage_dirty, 0,
        "first storage dirty flag mismatch after RLP round trip"
    );
    let first_storage_key: Vec<u8> = first_storage_item
        .val_at(2)
        .expect("failed to decode first storage key from RLP payload");
    assert_eq!(
        first_storage_key,
        original.accounts[0].storage_items[0].key.to_vec(),
        "first storage key mismatch after RLP round trip"
    );

    let second_storage_item = storage_items
        .at(1)
        .expect("failed to decode second storage item from RLP payload");
    let second_storage_tx_index: u32 = second_storage_item
        .val_at(0)
        .expect("failed to decode second storage tx_index from RLP payload");
    assert_eq!(
        second_storage_tx_index, 0,
        "second storage tx_index mismatch after RLP round trip"
    );
    let second_storage_dirty: u8 = second_storage_item
        .val_at(1)
        .expect("failed to decode second storage dirty flag from RLP payload");
    assert_eq!(
        second_storage_dirty, 1,
        "second storage dirty flag mismatch after RLP round trip"
    );
    let second_storage_key: Vec<u8> = second_storage_item
        .val_at(2)
        .expect("failed to decode second storage key from RLP payload");
    assert_eq!(
        second_storage_key,
        original.accounts[0].storage_items[1].key.to_vec(),
        "second storage key mismatch after RLP round trip"
    );
}

#[test]
fn test_eip7928_encode() {
    let original = BlockAccessListEncode {
        version: 0,
        number: 12_345_678,
        hash: [0xab; 32],
        sign_data: Vec::new(),
        accounts: vec![
            AccountAccessListEncode {
                tx_index: 1,
                address: [0xcd; 20],
                storage_items: vec![
                    StorageAccessItem {
                        tx_index: 1,
                        dirty: false,
                        key: [0x11; 32],
                        value: [0x00; 32],
                    },
                    StorageAccessItem {
                        tx_index: 2,
                        dirty: true,
                        key: [0x22; 32],
                        value: [0x33; 32],
                    },
                ],
            },
            AccountAccessListEncode {
                tx_index: 0,
                address: [0xcc; 20], // Smaller address for sorting test
                storage_items: vec![],
            },
        ],
    };

    let encoded = original.eip7928_encode();
    let decoded = Rlp::new(&encoded);

    // Should be a list of AccountChanges
    assert_eq!(decoded.item_count().unwrap(), 2);

    // First account should be 0xcc (sorted)
    let acc_cc = decoded.at(0).unwrap();
    assert_eq!(acc_cc.val_at::<Vec<u8>>(0).unwrap(), vec![0xcc; 20]);

    // Second account should be 0xcd
    let acc_cd = decoded.at(1).unwrap();
    assert_eq!(acc_cd.val_at::<Vec<u8>>(0).unwrap(), vec![0xcd; 20]);

    // storage_changes for 0xcd
    let changes = acc_cd.at(1).unwrap();
    assert_eq!(changes.item_count().unwrap(), 1);
    let first_change = changes.at(0).unwrap();
    assert_eq!(first_change.val_at::<Vec<u8>>(0).unwrap(), vec![0x22; 32]);
    let index_vals = first_change.at(1).unwrap();
    let first_index_val = index_vals.at(0).unwrap();
    assert_eq!(first_index_val.val_at::<u16>(0).unwrap(), 2);
    assert_eq!(first_index_val.val_at::<Vec<u8>>(1).unwrap(), vec![0x33; 32]);

    // storage_reads for 0xcd
    let reads = acc_cd.at(2).unwrap();
    assert_eq!(reads.item_count().unwrap(), 1);
    assert_eq!(reads.val_at::<Vec<u8>>(0).unwrap(), vec![0x11; 32]);

    // Empty fields
    assert_eq!(acc_cd.at(3).unwrap().item_count().unwrap(), 0);
    assert_eq!(acc_cd.at(4).unwrap().item_count().unwrap(), 0);
    assert_eq!(acc_cd.at(5).unwrap().item_count().unwrap(), 0);
}

/// A payload with one account of which two slots are written.
const PAYLOAD: &str = "f88c808405c1b83ba04c0e24ed5378f9a7a8695528591e82798e37c6f62b906b39bd6ca98df29f188180f862f8608094d98afa5e340816a637bd886d16e82f9c2106bb21f848e38001a00bf32f4da38320366071ac3236c564e6dbc88a40d525d63d09ef1b94ae5913abe38001a090a3916c6b57b86ca63923538a8e760694b59e976b381e1139befab04fb2d3d0";

fn bytes32(text: &str) -> [u8; 32] {
    bal_daemon::parse_hex_32(text).unwrap()
}

fn block(number: u64, accounts: Vec<AccountAccessListEncode>) -> BlockAccessListEncode {
    let mut res = BlockAccessListEncode::new(number, [0xab; 32]);
    res.accounts = accounts;
    res
}

fn account(
    tx_index: u32,
    address: u8,
    storage_items: Vec<StorageAccessItem>,
) -> AccountAccessListEncode {
    let mut res = AccountAccessListEncode::new(tx_index, [address; 20]);
    res.storage_items = storage_items;
    res
}

fn slot(tx_index: u32, dirty: bool, key: u8, value: u8) -> StorageAccessItem {
    StorageAccessItem::new(tx_index, dirty, [key; 32], [value; 32])
}

#[test]
fn constructors_leave_the_rest_empty() {
    let list = BlockAccessListEncode::new(7, [1; 32]);
    assert_eq!((list.version, list.number, list.hash), (0, 7, [1; 32]));
    assert!(list.sign_data.is_empty() && list.accounts.is_empty());
    let account = AccountAccessListEncode::new(3, [2; 20]);
    assert_eq!((account.tx_index, account.address), (3, [2; 20]));
    assert!(account.storage_items.is_empty());
    let item = StorageAccessItem::new(4, true, [5; 32], [6; 32]);
    assert_eq!((item.tx_index, item.dirty, item.key, item.value), (4, true, [5; 32], [6; 32]));
}

#[test]
fn known_payload_is_written() {
    let mut list = BlockAccessListEncode::new(
        0x05c1_b83b,
        bytes32("4c0e24ed5378f9a7a8695528591e82798e37c6f62b906b39bd6ca98df29f1881"),
    );
    let address = hex::decode("d98afa5e340816a637bd886d16e82f9c2106bb21").unwrap();
    let mut account = AccountAccessListEncode::new(0, address.try_into().unwrap());
    for key in [
        "0bf32f4da38320366071ac3236c564e6dbc88a40d525d63d09ef1b94ae5913ab",
        "90a3916c6b57b86ca63923538a8e760694b59e976b381e1139befab04fb2d3d0",
    ] {
        account.storage_items.push(StorageAccessItem::new(0, true, bytes32(key), [0; 32]));
    }
    list.accounts.push(account);
    assert_eq!(hex::encode(list.rlp_encode()), PAYLOAD);
}

#[test]
fn empty_lists_have_exact_payloads() {
    let mut list = BlockAccessListEncode::new(0, [0x11; 32]);
    let mut expected = vec![0xe5, 0x80, 0x80, 0xa0];
    expected.extend([0x11; 32]);
    expected.extend([0x80, 0xc0]);
    assert_eq!(list.rlp_encode(), expected);
    assert_eq!(list.eip7928_encode(), vec![0xc0]);

    list.sign_data = vec![0x7f];
    list.version = 0x80;
    let mut expected = vec![0xe6, 0x81, 0x80, 0x80, 0xa0];
    expected.extend([0x11; 32]);
    expected.extend([0x7f, 0xc0]);
    assert_eq!(list.rlp_encode(), expected);
}

#[test]
fn eip7928_account_has_exact_bytes() {
    let list = block(1, vec![account(0, 0x22, vec![slot(3, true, 0x33, 0x44), slot(0, false, 0x11, 0)])]);
    let mut account = vec![0x94];
    account.extend([0x22; 20]);
    // [[key, [[3, value]]]]
    account.extend([0xf8, 0x47, 0xf8, 0x45, 0xa0]);
    account.extend([0x33; 32]);
    account.extend([0xe3, 0xe2, 0x03, 0xa0]);
    account.extend([0x44; 32]);
    // [key]
    account.extend([0xe1, 0xa0]);
    account.extend([0x11; 32]);
    account.extend([0xc0, 0xc0, 0xc0]);
    let mut list_bytes = vec![0xf8, account.len() as u8];
    list_bytes.extend(&account);
    let mut expected = vec![0xf8, list_bytes.len() as u8];
    expected.extend(&list_bytes);
    assert_eq!(hex::encode(list.eip7928_encode()), hex::encode(&expected));
}

#[test]
fn eip7928_keeps_sixteen_bits_of_the_index() {
    let index_of = |tx_index: u32| {
        let bytes = block(1, vec![account(0, 1, vec![slot(tx_index, true, 2, 3)])]).eip7928_encode();
        let list = Rlp::new(&bytes);
        let account = list.at(0).unwrap();
        let changes = account.at(1).unwrap();
        let change = changes.at(0).unwrap();
        let values = change.at(1).unwrap();
        let value = values.at(0).unwrap();
        value.val_at::<u16>(0).unwrap()
    };
    assert_eq!(index_of(0xffff), 0xffff);
    assert_eq!(index_of(0x1_0000), 0);
    assert_eq!(index_of(0x1_0002), 2);
}

#[test]
fn eip7928_counts_transactions_from_a_given_index() {
    let index_of = |tx_index: u32, first: u16| {
        let bytes = block(1, vec![account(0, 1, vec![slot(tx_index, true, 2, 3)])])
            .eip7928_encode_from(first);
        let list = Rlp::new(&bytes);
        let account = list.at(0).unwrap();
        let changes = account.at(1).unwrap();
        let change = changes.at(0).unwrap();
        let values = change.at(1).unwrap();
        let value = values.at(0).unwrap();
        value.val_at::<u16>(0).unwrap()
    };
    assert_eq!(index_of(0, 1), 1);
    assert_eq!(index_of(4, 1), 5);
    assert_eq!(index_of(4, 0), 4);
    assert_eq!(index_of(0xffff, 1), 0);
    assert_eq!(index_of(u32::MAX, 2), 1);
    let list = block(1, vec![account(0, 1, vec![slot(3, true, 2, 3), slot(1, false, 4, 0)])]);
    assert_eq!(list.eip7928_encode(), list.eip7928_encode_from(0));
}

#[test]
fn signatures_and_accounts_can_be_told_apart() {
    let payload = |sign_data: Vec<u8>, accounts: Vec<AccountAccessListEncode>| {
        let mut list = block(1, accounts);
        list.sign_data = sign_data;
        list.rlp_encode()
    };
    let one = || account(0, 1, vec![]);
    assert_ne!(payload(vec![0xc0], vec![]), payload(vec![], vec![]));
    assert_ne!(payload(vec![], vec![one()]), payload(vec![], vec![one(), one()]));
    assert_ne!(payload(vec![0; 55], vec![]), payload(vec![0; 56], vec![]));
    let slots = |n: u8| (0..n).map(|k| slot(0, false, k, 0)).collect::<Vec<_>>();
    assert_ne!(
        payload(vec![], vec![account(0, 1, slots(2))]),
        payload(vec![], vec![account(0, 1, slots(1)), account(0, 1, slots(1))])
    );
}

#[test]
fn eip7928_ignores_the_order_of_accounts_and_slots() {
    let a = account(0, 1, vec![slot(0, true, 1, 9), slot(0, false, 2, 9), slot(1, true, 3, 9)]);
    let mut reversed = a.clone();
    reversed.storage_items.reverse();
    let b = account(1, 2, vec![]);
    let forward = block(5, vec![a, b.clone()]).eip7928_encode();
    let backward = block(5, vec![b, reversed]).eip7928_encode();
    assert_eq!(forward, backward);
}

#[test]
fn eip7928_keeps_the_order_of_equal_keys() {
    let bytes = block(1, vec![account(0, 1, vec![slot(2, true, 7, 1), slot(1, true, 7, 2)])])
        .eip7928_encode();
    let list = Rlp::new(&bytes);
    let account = list.at(0).unwrap();
    let changes = account.at(1).unwrap();
    let values: Vec<Vec<u8>> = changes
        .iter()
        .map(|c| c.at(1).unwrap().at(0).unwrap().val_at::<Vec<u8>>(1).unwrap())
        .collect();
    assert_eq!(values, vec![vec![1; 32], vec![2; 32]]);
}

#[test]
fn bep592_payload_ignores_values_and_nothing_else() {
    let list = |value: u8, dirty: bool, tx_index: u32, order: bool| {
        let mut items = vec![slot(tx_index, dirty, 1, value), slot(0, true, 2, 0)];
        if order {
            items.reverse();
        }
        block(9, vec![account(0, 1, items)]).rlp_encode()
    };
    let reference = list(1, false, 0, false);
    assert_eq!(reference, list(2, false, 0, false));
    assert_ne!(reference, list(1, true, 0, false));
    assert_ne!(reference, list(1, false, 1, false));
    assert_ne!(reference, list(1, false, 0, true));
    assert_ne!(
        block(9, vec![]).rlp_encode(),
        block(10, vec![]).rlp_encode()
    );
}

#[test]
fn long_lists_are_written_with_long_lengths() {
    let items: Vec<StorageAccessItem> = (0..2000u32)
        .map(|n| StorageAccessItem::new(n, n % 2 == 0, [(n % 251) as u8; 32], [0; 32]))
        .collect();
    let bytes = block(3, vec![account(0, 1, items)]).rlp_encode();
    assert!(bytes.len() > 0x1_0000);
    let payload = Rlp::new(&bytes);
    let accounts = payload.at(4).unwrap();
    let slots = accounts.at(0).unwrap();
    assert_eq!(slots.at(2).unwrap().item_count().unwrap(), 2000);
    let check = verify_bal_payload(&hex::encode(&bytes)).unwrap();
    assert!(check.valid);
    assert_eq!((check.accounts, check.reads, check.writes), (1, 1000, 1000));
}

#[test]
fn known_payload_is_valid() {
    let check = verify_bal_payload(PAYLOAD).unwrap();
    assert!(check.valid);
    assert_eq!((check.accounts, check.reads, check.writes), (1, 0, 2));
    assert_eq!(check.error, None);
}

#[test]
fn written_payloads_are_valid() {
    let list = block(
        77,
        vec![
            account(0, 1, vec![slot(0, true, 1, 1), slot(1, false, 2, 2)]),
            account(300, 2, vec![slot(300, false, 3, 3)]),
            account(2, 3, vec![]),
        ],
    );
    let check = verify_bal_payload(&hex::encode(list.rlp_encode())).unwrap();
    assert!(check.valid);
    assert_eq!((check.accounts, check.reads, check.writes), (3, 2, 1));
}

#[test]
fn payload_content_is_read_back() {
    let list = block(1, vec![account(0, 9, vec![slot(4, true, 5, 6)])]);
    match payload_content(&list.rlp_encode()).unwrap() {
        PayloadContent::Accounts(accounts) => {
            assert_eq!(accounts.len(), 1);
            assert_eq!(accounts[0].address, Some(vec![9; 20]));
            assert_eq!(accounts[0].slots.len(), 1);
            assert_eq!(accounts[0].slots[0].dirty, 1);
            assert_eq!(accounts[0].slots[0].key, Some(vec![5; 32]));
        }
        other => panic!("unexpected content {other:?}"),
    }
}

#[test]
fn wrong_forms_are_refused() {
    let fault = |hex: &str| {
        let check = verify_bal_payload(hex).unwrap();
        assert!(!check.valid);
        assert_eq!((check.accounts, check.reads, check.writes), (0, 0, 0));
        check.error.unwrap()
    };
    // No bytes, a byte string, and lists of other lengths.
    assert_eq!(fault(""), PayloadFault::WrongLength);
    assert_eq!(fault("80"), PayloadFault::WrongLength);
    assert_eq!(fault("c0"), PayloadFault::WrongLength);
    assert_eq!(fault("c480808080"), PayloadFault::WrongLength);
    assert_eq!(fault("c6808080808080"), PayloadFault::WrongLength);
    // The version is a list, or too large.
    assert_eq!(fault("c5c080808080"), PayloadFault::NoVersion);
    assert_eq!(fault("ca850100000000808080c0"), PayloadFault::NoVersion);
    assert_eq!(fault("c507808080c0"), PayloadFault::OtherVersion(7));
    assert_eq!(fault("c98401000000808080c0"), PayloadFault::OtherVersion(0x0100_0000));
}

#[test]
fn malformed_accounts_are_errors() {
    let error = |hex: &str| verify_bal_payload(hex).unwrap_err();
    // The accounts are no list.
    assert_eq!(error("c58080808080"), PayloadError::Malformed);
    // An account is an empty list.
    assert_eq!(error("c680808080c1c0"), PayloadError::Malformed);
    // The slots of an account are no list.
    assert_eq!(error("c980808080c4c3808080"), PayloadError::Malformed);
    // A slot without flag.
    assert_eq!(error("cb80808080c6c58080c2c180"), PayloadError::Malformed);
    // A flag that is no byte.
    assert_eq!(error("cd80808080c8c78080c4c380c080"), PayloadError::Malformed);
}

#[test]
fn text_that_is_not_hexadecimal_is_an_error() {
    assert_eq!(verify_bal_payload("0").unwrap_err(), PayloadError::NotHex);
    assert_eq!(verify_bal_payload("zz").unwrap_err(), PayloadError::NotHex);
    assert_eq!(
        verify_bal_payload(&format!("0x{PAYLOAD}")).unwrap_err(),
        PayloadError::NotHex
    );
    assert!(verify_bal_payload(&PAYLOAD.to_uppercase()).unwrap().valid);
}

#[test]
fn lengths_of_addresses_and_keys_are_checked() {
    let content = |address: usize, key: usize| {
        PayloadContent::Accounts(vec![ListedAccount {
            address: Some(vec![0; address]),
            slots: vec![
                ListedSlot { dirty: 1, key: Some(vec![0; 32]) },
                ListedSlot { dirty: 2, key: Some(vec![0; key]) },
            ],
        }])
    };
    let check = check_content(&content(20, 32));
    assert!(check.valid);
    // Only a flag of 1 marks a write.
    assert_eq!((check.accounts, check.reads, check.writes), (1, 1, 1));
    assert_eq!(check_content(&content(19, 32)).error, Some(PayloadFault::AddressLength));
    assert_eq!(check_content(&content(20, 31)).error, Some(PayloadFault::KeyLength));
    assert_eq!(check_content(&content(21, 33)).error, Some(PayloadFault::AddressLength));
    assert_eq!(check_content(&content(20, 0)).writes, 1);
}

#[test]
fn slots_without_key_are_counted_but_not_valid() {
    let long_address = format!("94{}", "07".repeat(20));
    // One account with a slot [0, 1].
    let check = verify_bal_payload(&format!("e080808080dbda80{long_address}c3c28001")).unwrap();
    assert!(!check.valid);
    assert_eq!((check.accounts, check.reads, check.writes), (1, 0, 1));
    assert_eq!(check.error, Some(PayloadFault::KeyLength));
    // One account whose address is a list.
    let check = verify_bal_payload("c980808080c4c380c0c0").unwrap();
    assert!(!check.valid);
    assert_eq!((check.accounts, check.reads, check.writes), (1, 0, 0));
    assert_eq!(check.error, Some(PayloadFault::AddressLength));
}

#[test]
fn bytes_that_no_encoder_writes_are_read() {
    let check = |hex: &str| verify_bal_payload(hex).unwrap();
    // The end of the outer list is heeded for its first item only.
    assert!(check("c180808080c0").valid);
    assert_eq!(check("c580808080c080").error, Some(PayloadFault::WrongLength));
    assert_eq!(check("c08080808080").error, Some(PayloadFault::WrongLength));
    // A list that announces more bytes than there are has no items.
    assert_eq!(check("c780808080c0").error, Some(PayloadFault::WrongLength));
    // A length field where none is needed, and one with a leading zero.
    assert_eq!(check("c7b80105808080c0").error, Some(PayloadFault::WrongLength));
    assert_eq!(check("f80580808080c0").error, Some(PayloadFault::WrongLength));
    // Numbers that are not written as short as they can be.
    assert_eq!(check("c68105808080c0").error, Some(PayloadFault::NoVersion));
    assert_eq!(check("c500808080c0").error, Some(PayloadFault::NoVersion));
    assert_eq!(check("c7820001808080c0").error, Some(PayloadFault::NoVersion));
}

#[test]
fn faults_are_put_in_words() {
    assert_eq!(PayloadFault::WrongLength.message(), "Invalid RLP list length");
    assert_eq!(PayloadFault::NoVersion.message(), "Invalid version format");
    for version in [0u32, 7, 10, 4_294_967_295] {
        assert_eq!(
            PayloadFault::OtherVersion(version).message(),
            format!("Invalid version: {version}")
        );
    }
    assert_eq!(PayloadFault::AddressLength.message(), "Invalid address length");
    assert_eq!(PayloadFault::KeyLength.message(), "Invalid key length");
}

#[test]
fn access_list_of_a_block_is_counted() {
    let stats = |text: &str| block_bal_stats(&serde_json::from_str(text).unwrap());
    let none = stats("{\"number\": \"0x1\"}");
    assert_eq!((none.has_bal, none.accounts), (false, 0));
    let three = stats("{\"accessList\": [1, 2, 3]}");
    assert_eq!((three.has_bal, three.accounts), (true, 3));
    let null = stats("{\"accessList\": null}");
    assert_eq!((null.has_bal, null.accounts), (true, 0));
    let no_object = stats("[]");
    assert_eq!((no_object.has_bal, no_object.accounts), (false, 0));
}

#[test]
fn eip7928_list_shows_values_indices_and_reads() {
    let list = |tx_index: u32, value: u8, read: u8| {
        block(1, vec![account(0, 1, vec![slot(tx_index, true, 1, value), slot(0, false, read, 0)])])
            .eip7928_encode()
    };
    let reference = list(1, 1, 2);
    assert_ne!(reference, list(2, 1, 2));
    assert_ne!(reference, list(1, 2, 2));
    assert_ne!(reference, list(1, 1, 3));
    assert_eq!(reference, list(0x1_0001, 1, 2));
}
