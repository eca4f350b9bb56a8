use bal_daemon::parse_prestate_diff;
use bal_daemon::single_call::build_bal_payload;
use serde_json::Value;

const A: &str = "0x00000000000000000000000000000000000000aa";
const B: &str = "0x00000000000000000000000000000000000000bb";

fn json(text: &str) -> Value {
    serde_json::from_str(text).unwrap()
}

fn address(last: u8) -> [u8; 20] {
    let mut res = [0u8; 20];
    res[19] = last;
    res
}

fn word(last: u8) -> [u8; 32] {
    let mut res = [0u8; 32];
    res[31] = last;
    res
}

/// (key, value, dirty, tx_index) of the slots of an account.
fn slots(trace: &str, tx_index: u32, account: u8) -> Vec<([u8; 32], [u8; 32], bool, u32)> {
    let accounts = parse_prestate_diff(&json(trace), tx_index);
    let mut res = Vec::new();
    for (found, items) in accounts {
        if found == address(account) {
            for item in items {
                res.push((item.key, item.value, item.dirty, item.tx_index));
            }
        }
    }
    res
}

#[test]
fn traces_without_accounts_list_nothing() {
    for text in ["null", "[]", "{}", "{\"pre\": 1, \"post\": []}", "{\"pre\": {}, \"post\": {}}"] {
        assert!(parse_prestate_diff(&json(text), 0).is_empty());
    }
}

#[test]
fn slots_in_post_are_written() {
    let trace = format!(
        "{{\"pre\": {{\"{A}\": {{\"storage\": {{\"0x1\": \"0x5\", \"0x2\": \"0x6\"}}}}}},
          \"post\": {{\"{A}\": {{\"storage\": {{\"0x2\": \"0x7\"}}}}}}}}"
    );
    assert_eq!(
        slots(&trace, 3, 0xaa),
        vec![(word(2), word(7), true, 3), (word(1), word(5), false, 3)]
    );
}

#[test]
fn accounts_of_both_states_are_found() {
    let trace = format!(
        "{{\"pre\": {{\"{A}\": {{\"storage\": {{\"0x1\": \"0x1\"}}}}}},
          \"post\": {{\"{B}\": {{\"storage\": {{\"0x2\": \"0x2\"}}}}}}}}"
    );
    let accounts = parse_prestate_diff(&json(&trace), 0);
    assert_eq!(accounts.len(), 2);
    assert_eq!(slots(&trace, 0, 0xaa), vec![(word(1), word(1), false, 0)]);
    assert_eq!(slots(&trace, 0, 0xbb), vec![(word(2), word(2), true, 0)]);
}

#[test]
fn an_account_is_listed_once() {
    let trace = format!(
        "{{\"pre\": {{\"{A}\": {{\"storage\": {{\"0x1\": \"0x1\"}}}}}},
          \"post\": {{\"{A}\": {{\"storage\": {{\"0x1\": \"0x2\"}}}}}}}}"
    );
    assert_eq!(parse_prestate_diff(&json(&trace), 0).len(), 1);
    assert_eq!(slots(&trace, 0, 0xaa), vec![(word(1), word(2), true, 0)]);
}

#[test]
fn accounts_without_slots_are_left_out() {
    let trace = format!(
        "{{\"pre\": {{\"{A}\": {{\"balance\": \"0x1\"}}, \"{B}\": {{\"storage\": {{}}}}}},
          \"post\": {{\"{A}\": {{\"storage\": null}}, \"{B}\": 7}}}}"
    );
    assert!(parse_prestate_diff(&json(&trace), 0).is_empty());
}

#[test]
fn names_that_are_no_addresses_are_passed_over() {
    let trace = format!(
        "{{\"pre\": {{\"0x1234\": {{\"storage\": {{\"0x1\": \"0x1\"}}}},
                      \"nonsense\": {{\"storage\": {{\"0x1\": \"0x1\"}}}},
                      \"{A}\": {{\"storage\": {{\"0x1\": \"0x1\"}}}}}}}}"
    );
    let accounts = parse_prestate_diff(&json(&trace), 0);
    assert_eq!(accounts.len(), 1);
    assert_eq!(accounts[0].0, address(0xaa));
}

#[test]
fn keys_that_are_no_words_are_passed_over() {
    let trace = format!(
        "{{\"post\": {{\"{A}\": {{\"storage\": {{\"0xzz\": \"0x1\", \"0x3\": \"0x1\"}}}}}}}}"
    );
    assert_eq!(slots(&trace, 0, 0xaa), vec![(word(3), word(1), true, 0)]);
}

#[test]
fn values_that_are_no_words_count_as_zero() {
    let trace = format!(
        "{{\"post\": {{\"{A}\": {{\"storage\": {{\"0x1\": \"0xzz\", \"0x2\": 5}}}}}}}}"
    );
    assert_eq!(
        slots(&trace, 0, 0xaa),
        vec![(word(1), word(0), true, 0), (word(2), word(0), true, 0)]
    );
}

#[test]
fn two_spellings_of_a_key_are_one_slot() {
    let trace = format!(
        "{{\"post\": {{\"{A}\": {{\"storage\": {{\"0x01\": \"0x5\", \"0x1\": \"0x6\"}}}}}}}}"
    );
    assert_eq!(slots(&trace, 0, 0xaa), vec![(word(1), word(5), true, 0)]);
}

#[test]
fn single_call_becomes_a_list() {
    let trace = json(&format!(
        "{{\"pre\": {{\"{A}\": {{\"storage\": {{\"0x1\": \"0x1\", \"0x2\": \"0x1\"}}}}}},
          \"post\": {{\"{A}\": {{\"storage\": {{\"0x2\": \"0x2\"}}}},
                      \"{B}\": {{\"storage\": {{\"0x3\": \"0x2\"}}}}}}}}"
    ));
    let (list, accounts, reads, writes) = build_bal_payload(9, [7; 32], &trace);
    assert_eq!((accounts, reads, writes), (2, 1, 2));
    assert_eq!((list.version, list.number, list.hash), (0, 9, [7; 32]));
    assert!(list.sign_data.is_empty());
    assert_eq!(list.accounts.len(), 2);
    assert!(list.accounts.iter().all(|a| a.tx_index == 0));
    let a = list.accounts.iter().find(|a| a.address == address(0xaa)).unwrap();
    assert_eq!(a.storage_items.len(), 2);
    assert_eq!((a.storage_items[0].key, a.storage_items[0].dirty), (word(2), true));
    assert_eq!((a.storage_items[1].key, a.storage_items[1].dirty), (word(1), false));

    let (empty, accounts, reads, writes) = build_bal_payload(9, [7; 32], &json("{}"));
    assert_eq!((accounts, reads, writes), (0, 0, 0));
    assert!(empty.accounts.is_empty());
}
