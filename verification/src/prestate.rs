//! Storage accesses out of the difference that a prestate tracer reports.
//!
//! The tracer lists, by account, the state before a transaction under `pre`
//! and what the transaction changed under `post`. A slot under `post` was
//! written; one that is only under `pre` was read.
use vstd::prelude::*;

use crate::access_list::{slots_view, SlotAccess, StorageAccessItem};
use crate::hex_text::{address_of, bytes32_of, parse_address, parse_hex_32};
use crate::order::{rank, Rank};
use crate::json::{entries_of, field, json_of, Json};
use crate::json::{map_entries, map_get, value_as_object, value_as_str, value_get};

verus! {

/// The slots of an account that a transaction accesses.
pub struct AccountAccess {
    pub address: Seq<u8>,
    pub slots: Seq<SlotAccess>,
}

/// What a list of accounts with their slots holds.
pub open spec fn accounts_view(accounts: Seq<([u8; 20], Vec<StorageAccessItem>)>) -> Seq<
    AccountAccess,
> {
    accounts.map_values(
        |a: ([u8; 20], Vec<StorageAccessItem>)|
            AccountAccess { address: a.0@, slots: slots_view(a.1@) },
    )
}

/// The fields of the object that a field holds, and none if it holds no object.
pub open spec fn object_at(json: Json, name: Seq<char>) -> Seq<(Seq<char>, Json)> {
    match json.get(name) {
        Some(Json::Object(entries)) => entries,
        _ => Seq::empty(),
    }
}

/// The slots that are listed for an account.
pub open spec fn storage_of(accounts: Seq<(Seq<char>, Json)>, name: Seq<char>) -> Seq<
    (Seq<char>, Json),
> {
    match field(accounts, name) {
        Some(account) => object_at(account, "storage"@),
        None => Seq::empty(),
    }
}

/// The content of a slot: a text of hexadecimal digits, and zero for anything
/// else.
pub open spec fn slot_value(json: Json) -> Seq<u8> {
    match json {
        Json::Str(text) => match bytes32_of(text) {
            Some(bytes) => bytes,
            None => zero32(),
        },
        _ => zero32(),
    }
}

pub open spec fn zero32() -> Seq<u8> {
    Seq::new(32, |i: int| 0u8)
}

/// Whether `slots` has an entry for `key`.
pub open spec fn has_slot(slots: Seq<SlotAccess>, key: Seq<u8>) -> bool {
    exists|i: int| 0 <= i < slots.len() && (#[trigger] slots[i]).key == key
}

/// `slots` with the listed slots behind them. A slot whose name is no number of
/// 32 bytes is left out, and so is one that is there already.
pub open spec fn with_slots(
    slots: Seq<SlotAccess>,
    listed: Seq<(Seq<char>, Json)>,
    dirty: bool,
    tx_index: u32,
) -> Seq<SlotAccess>
    decreases listed.len(),
{
    if listed.len() == 0 {
        slots
    } else {
        let before = with_slots(slots, listed.drop_last(), dirty, tx_index);
        let (name, content) = listed.last();
        match bytes32_of(name) {
            Some(key) => if has_slot(before, key) {
                before
            } else {
                before.push(SlotAccess { tx_index, dirty, key, value: slot_value(content) })
            },
            None => before,
        }
    }
}

/// The slots of one account: first those that were written, then those that
/// were only read.
pub open spec fn account_slots(
    pre: Seq<(Seq<char>, Json)>,
    post: Seq<(Seq<char>, Json)>,
    tx_index: u32,
) -> Seq<SlotAccess> {
    with_slots(with_slots(Seq::empty(), post, true, tx_index), pre, false, tx_index)
}

/// The accesses to the account with the given name, if its name is an address
/// and a slot is accessed in it.
pub open spec fn account_access(
    pre: Seq<(Seq<char>, Json)>,
    post: Seq<(Seq<char>, Json)>,
    name: Seq<char>,
    tx_index: u32,
) -> Option<AccountAccess> {
    match address_of(name) {
        Some(address) => {
            let slots = account_slots(storage_of(pre, name), storage_of(post, name), tx_index);
            if slots.len() > 0 {
                Some(AccountAccess { address, slots })
            } else {
                None
            }
        },
        None => None,
    }
}

/// The accesses to the accounts with the given names.
pub open spec fn accesses_of(
    pre: Seq<(Seq<char>, Json)>,
    post: Seq<(Seq<char>, Json)>,
    names: Seq<Seq<char>>,
    tx_index: u32,
) -> Seq<AccountAccess>
    decreases names.len(),
{
    if names.len() == 0 {
        Seq::empty()
    } else {
        let before = accesses_of(pre, post, names.drop_last(), tx_index);
        match account_access(pre, post, names.last(), tx_index) {
            Some(access) => before.push(access),
            None => before,
        }
    }
}

/// The names of the fields.
pub open spec fn names_of(entries: Seq<(Seq<char>, Json)>) -> Seq<Seq<char>> {
    entries.map_values(|e: (Seq<char>, Json)| e.0)
}

/// The names of all accounts: those under `pre`, then those only under `post`.
pub open spec fn account_names(
    pre: Seq<(Seq<char>, Json)>,
    post: Seq<(Seq<char>, Json)>,
) -> Seq<Seq<char>> {
    names_of(pre) + names_of(post).filter(|name: Seq<char>| field(pre, name) is None)
}

/// What a difference says of the storage accesses of a transaction.
pub open spec fn diff_accesses(diff: Json, tx_index: u32) -> Seq<AccountAccess> {
    let pre = object_at(diff, "pre"@);
    let post = object_at(diff, "post"@);
    accesses_of(pre, post, account_names(pre, post), tx_index)
}

/// The fields of the object that a field holds.
fn object_field<'a>(value: &'a serde_json::Value, name: &str) -> (res: Option<
    &'a serde_json::Map<String, serde_json::Value>,
>)
    ensures
        match res {
            Some(map) => entries_of(*map) == object_at(json_of(*value), name@),
            None => object_at(json_of(*value), name@) == Seq::<(Seq<char>, Json)>::empty(),
        },
{
    match value_get(value, name) {
        Some(inner) => value_as_object(inner),
        None => None,
    }
}

/// The slots that are listed for an account.
fn storage_field<'a>(
    accounts: Option<&'a serde_json::Map<String, serde_json::Value>>,
    name: &str,
) -> (res: Option<&'a serde_json::Map<String, serde_json::Value>>)
    ensures
        ({
            let all = match accounts {
                Some(map) => entries_of(*map),
                None => Seq::empty(),
            };
            match res {
                Some(map) => entries_of(*map) == storage_of(all, name@),
                None => storage_of(all, name@) == Seq::<(Seq<char>, Json)>::empty(),
            }
        }),
{
    match accounts {
        Some(map) => match map_get(map, name) {
            Some(account) => object_field(account, "storage"),
            None => None,
        },
        None => None,
    }
}

/// The content of a slot.
fn read_slot_value(value: &serde_json::Value) -> (res: [u8; 32])
    ensures
        res@ == slot_value(json_of(*value)),
{
    let zero: [u8; 32] = [0u8; 32];
    assert(zero@ =~= zero32());
    match value_as_str(value) {
        Some(text) => match parse_hex_32(text) {
            Some(bytes) => bytes,
            None => zero,
        },
        None => zero,
    }
}

fn lists_slot(items: &Vec<StorageAccessItem>, key: &[u8; 32]) -> (res: bool)
    ensures
        res == has_slot(slots_view(items@), key@),
{
    let mut i: usize = 0;
    while i < items.len()
        invariant
            i <= items@.len(),
            forall|k: int| 0 <= k < i ==> (#[trigger] slots_view(items@)[k]).key != key@,
        decreases items@.len() - i,
    {
        if rank(items[i].key.as_slice(), key.as_slice()) == Rank::Same {
            assert(slots_view(items@)[i as int].key == key@);
            return true;
        }
        i = i + 1;
    }
    false
}

/// Adds the listed slots that are not among `items` yet.
fn add_slots(
    items: &mut Vec<StorageAccessItem>,
    listed: &serde_json::Map<String, serde_json::Value>,
    dirty: bool,
    tx_index: u32,
)
    ensures
        slots_view(final(items)@) == with_slots(
            slots_view(old(items)@),
            entries_of(*listed),
            dirty,
            tx_index,
        ),
{
    let ghost start = slots_view(items@);
    let ghost all = entries_of(*listed);
    let entries = map_entries(listed);
    let mut n: usize = 0;
    while n < entries.len()
        invariant
            n <= entries@.len(),
            entries@.len() == all.len(),
            forall|i: int|
                0 <= i < entries@.len() ==> all[i] == (
                    (#[trigger] entries@[i]).0@,
                    json_of(*entries@[i].1),
                ),
            slots_view(items@) == with_slots(start, all.take(n as int), dirty, tx_index),
        decreases entries@.len() - n,
    {
        let (name, content) = entries[n];
        let ghost before = slots_view(items@);
        proof {
            assert(all.take(n + 1).drop_last() =~= all.take(n as int));
            assert(all.take(n + 1).last() == all[n as int]);
            assert(all[n as int] == (entries@[n as int].0@, json_of(*entries@[n as int].1)));
        }
        if let Some(key) = parse_hex_32(name.as_str()) {
            if !lists_slot(items, &key) {
                let value = read_slot_value(content);
                let item = StorageAccessItem::new(tx_index, dirty, key, value);
                items.push(item);
                assert(slots_view(items@) =~= before.push(item@));
            }
        }
        n = n + 1;
    }
    assert(all.take(n as int) =~= all);
}

/// The names of all accounts in a difference, each once.
fn all_names<'a>(
    pre: Option<&'a serde_json::Map<String, serde_json::Value>>,
    post: Option<&'a serde_json::Map<String, serde_json::Value>>,
) -> (res: Vec<&'a String>)
    ensures
        ({
            let pre_all = match pre {
                Some(map) => entries_of(*map),
                None => Seq::empty(),
            };
            let post_all = match post {
                Some(map) => entries_of(*map),
                None => Seq::empty(),
            };
            res@.map_values(|s: &String| s@) == account_names(pre_all, post_all)
        }),
{
    let ghost pre_all = match pre {
        Some(map) => entries_of(*map),
        None => Seq::empty(),
    };
    let ghost post_all = match post {
        Some(map) => entries_of(*map),
        None => Seq::empty(),
    };
    let ghost fresh = |name: Seq<char>| field(pre_all, name) is None;
    let mut res: Vec<&'a String> = Vec::new();
    if let Some(map) = pre {
        let entries = map_entries(map);
        let mut n: usize = 0;
        while n < entries.len()
            invariant
                n <= entries@.len(),
                entries@.len() == pre_all.len(),
                forall|i: int|
                    0 <= i < entries@.len() ==> pre_all[i] == (
                        (#[trigger] entries@[i]).0@,
                        json_of(*entries@[i].1),
                    ),
                res@.len() == n,
                forall|i: int| 0 <= i < n ==> (#[trigger] res@[i])@ == pre_all[i].0,
            decreases entries@.len() - n,
        {
            let (name, _) = entries[n];
            assert(pre_all[n as int] == (entries@[n as int].0@, json_of(*entries@[n as int].1)));
            res.push(name);
            n = n + 1;
        }
    }
    assert(res@.map_values(|s: &String| s@) =~= names_of(pre_all));
    let ghost names = names_of(post_all);
    proof {
        reveal(Seq::filter);
        assert(names_of(pre_all) + names.take(0).filter(fresh) =~= names_of(pre_all));
    }
    if let Some(map) = post {
        let entries = map_entries(map);
        let mut n: usize = 0;
        while n < entries.len()
            invariant
                n <= entries@.len(),
                entries@.len() == post_all.len(),
                names == names_of(post_all),
                fresh == (|name: Seq<char>| field(pre_all, name) is None),
                pre_all == (match pre {
                    Some(map) => entries_of(*map),
                    None => Seq::empty(),
                }),
                forall|i: int|
                    0 <= i < entries@.len() ==> post_all[i] == (
                        (#[trigger] entries@[i]).0@,
                        json_of(*entries@[i].1),
                    ),
                res@.map_values(|s: &String| s@) == names_of(pre_all) + names.take(
                    n as int,
                ).filter(fresh),
            decreases entries@.len() - n,
        {
            let (name, _) = entries[n];
            let ghost before = res@;
            proof {
                reveal(Seq::filter);
                assert(post_all[n as int] == (
                    entries@[n as int].0@,
                    json_of(*entries@[n as int].1),
                ));
                assert(names.take(n + 1).drop_last() =~= names.take(n as int));
                assert(names.take(n + 1).last() == name@);
            }
            let known = match pre {
                Some(others) => map_get(others, name.as_str()).is_some(),
                None => false,
            };
            if !known {
                res.push(name);
                assert(res@.map_values(|s: &String| s@) =~= before.map_values(
                    |s: &String| s@,
                ).push(name@));
                assert(res@.map_values(|s: &String| s@) =~= names_of(pre_all) + names.take(
                    n + 1,
                ).filter(fresh));
            }
            n = n + 1;
        }
        assert(names.take(n as int) =~= names);
    } else {
        assert(names =~= names.take(0));
    }
    res
}

/// Reads the storage accesses of a transaction out of the difference that a
/// prestate tracer reports. The accounts come in the order of `pre`, then
/// those only under `post`.
pub fn parse_prestate_diff(result: &serde_json::Value, tx_index: u32) -> (res: Vec<
    ([u8; 20], Vec<StorageAccessItem>),
>)
    ensures
        accounts_view(res@) == diff_accesses(json_of(*result), tx_index),
{
    let pre = object_field(result, "pre");
    let post = object_field(result, "post");
    let ghost pre_all = object_at(json_of(*result), "pre"@);
    let ghost post_all = object_at(json_of(*result), "post"@);
    let names = all_names(pre, post);
    let ghost texts = names@.map_values(|s: &String| s@);
    let mut output: Vec<([u8; 20], Vec<StorageAccessItem>)> = Vec::new();
    let mut n: usize = 0;
    assert(accounts_view(output@) =~= accesses_of(pre_all, post_all, texts.take(0), tx_index));
    while n < names.len()
        invariant
            n <= names@.len(),
            texts == names@.map_values(|s: &String| s@),
            pre_all == (match pre {
                Some(map) => entries_of(*map),
                None => Seq::empty(),
            }),
            post_all == (match post {
                Some(map) => entries_of(*map),
                None => Seq::empty(),
            }),
            accounts_view(output@) == accesses_of(
                pre_all,
                post_all,
                texts.take(n as int),
                tx_index,
            ),
        decreases names@.len() - n,
    {
        let name = names[n];
        let ghost before = output@;
        proof {
            assert(texts.take(n + 1).drop_last() =~= texts.take(n as int));
            assert(texts.take(n + 1).last() == name@);
        }
        if let Some(address) = parse_address(name.as_str()) {
            let mut items: Vec<StorageAccessItem> = Vec::new();
            assert(slots_view(items@) =~= Seq::empty());
            if let Some(slots) = storage_field(post, name.as_str()) {
                add_slots(&mut items, slots, true, tx_index);
            }
            if let Some(slots) = storage_field(pre, name.as_str()) {
                add_slots(&mut items, slots, false, tx_index);
            }
            if items.len() > 0 {
                let ghost slots = slots_view(items@);
                output.push((address, items));
                assert(accounts_view(output@) =~= accounts_view(before).push(
                    AccountAccess { address: address@, slots },
                ));
            }
        }
        n = n + 1;
    }
    assert(texts.take(n as int) =~= texts);
    output
}

/// Whether the list at its position `at` names the slot `key`.
pub open spec fn names_slot(listed: Seq<(Seq<char>, Json)>, at: int, key: Seq<u8>) -> bool {
    0 <= at < listed.len() && bytes32_of(listed[at].0) == Some(key)
}

/// Whether the list names the slot `key`.
pub open spec fn lists(listed: Seq<(Seq<char>, Json)>, key: Seq<u8>) -> bool {
    exists|at: int| names_slot(listed, at, key)
}

/// Whether `value` is what the list says of the slot `key` where it first
/// names it.
pub open spec fn first_value(listed: Seq<(Seq<char>, Json)>, key: Seq<u8>, value: Seq<u8>) -> bool {
    exists|at: int|
        #[trigger] names_slot(listed, at, key) && value == slot_value(listed[at].1) && forall|
            i: int,
        |
            i < at ==> !names_slot(listed, i, key)
}

/// Whether no slot occurs twice.
pub open spec fn distinct_slots(slots: Seq<SlotAccess>) -> bool {
    forall|i: int, j: int|
        #![trigger slots[i], slots[j]]
        0 <= i < j < slots.len() ==> slots[i].key != slots[j].key
}

proof fn lemma_with_slots(
    slots: Seq<SlotAccess>,
    listed: Seq<(Seq<char>, Json)>,
    dirty: bool,
    tx_index: u32,
)
    requires
        distinct_slots(slots),
    ensures
        ({
            let res = with_slots(slots, listed, dirty, tx_index);
            &&& distinct_slots(res)
            &&& res.len() >= slots.len()
            &&& forall|i: int| 0 <= i < slots.len() ==> #[trigger] res[i] == slots[i]
            &&& forall|i: int|
                slots.len() <= i < res.len() ==> {
                    let slot = #[trigger] res[i];
                    &&& slot.tx_index == tx_index
                    &&& slot.dirty == dirty
                    &&& !has_slot(slots, slot.key)
                    &&& first_value(listed, slot.key, slot.value)
                }
            &&& forall|key: Seq<u8>|
                #[trigger] has_slot(res, key) <==> has_slot(slots, key) || lists(listed, key)
        }),
    decreases listed.len(),
{
    let res = with_slots(slots, listed, dirty, tx_index);
    if listed.len() == 0 {
        assert forall|key: Seq<u8>| #[trigger] has_slot(res, key) <==> has_slot(slots, key) || lists(
            listed,
            key,
        ) by {
            if lists(listed, key) {
                let at = choose|at: int| names_slot(listed, at, key);
                assert(names_slot(listed, at, key));
            }
        }
    } else {
        let front = listed.drop_last();
        let last = listed.len() - 1;
        let before = with_slots(slots, front, dirty, tx_index);
        lemma_with_slots(slots, front, dirty, tx_index);
        assert forall|at: int, key: Seq<u8>| at < last implies #[trigger] names_slot(
            listed,
            at,
            key,
        ) == names_slot(front, at, key) by {}
        assert forall|key: Seq<u8>, value: Seq<u8>| #[trigger] first_value(
            front,
            key,
            value,
        ) implies first_value(listed, key, value) by {
            let at = choose|at: int|
                #[trigger] names_slot(front, at, key) && value == slot_value(front[at].1)
                    && forall|i: int| i < at ==> !names_slot(front, i, key);
            assert(names_slot(listed, at, key));
            assert forall|i: int| i < at implies !names_slot(listed, i, key) by {
                assert(!names_slot(front, i, key));
            }
        }
        assert forall|key: Seq<u8>| #[trigger] has_slot(res, key) <==> has_slot(slots, key) || lists(
            listed,
            key,
        ) by {
            if lists(front, key) {
                let at = choose|at: int| names_slot(front, at, key);
                assert(names_slot(listed, at, key));
            }
            if lists(listed, key) {
                let at = choose|at: int| names_slot(listed, at, key);
                if at < last {
                    assert(names_slot(front, at, key));
                }
            }
            if has_slot(before, key) {
                let i = choose|i: int| 0 <= i < before.len() && (#[trigger] before[i]).key == key;
                assert(res[i] == before[i]);
            }
            if has_slot(res, key) {
                let i = choose|i: int| 0 <= i < res.len() && (#[trigger] res[i]).key == key;
                if i < before.len() {
                    assert(before[i] == res[i]);
                } else {
                    assert(names_slot(listed, last, key));
                }
            }
            if bytes32_of(listed[last].0) == Some(key) && !has_slot(before, key) {
                assert(res[before.len() as int].key == key);
            }
        }
        if res.len() > before.len() {
            let key = bytes32_of(listed[last].0)->Some_0;
            let slot = res[before.len() as int];
            assert(names_slot(listed, last, key));
            assert forall|i: int| i < last implies !names_slot(listed, i, key) by {
                if names_slot(listed, i, key) {
                    assert(names_slot(front, i, key));
                    assert(lists(front, key));
                    assert(has_slot(before, key));
                }
            }
            assert(first_value(listed, key, slot.value));
        }
        assert forall|i: int| slots.len() <= i < res.len() implies {
            let slot = #[trigger] res[i];
            &&& slot.tx_index == tx_index
            &&& slot.dirty == dirty
            &&& !has_slot(slots, slot.key)
            &&& first_value(listed, slot.key, slot.value)
        } by {
            if i < before.len() {
                assert(before[i] == res[i]);
            }
        }
        assert forall|i: int, j: int| #![trigger res[i], res[j]] 0 <= i < j < res.len() implies res[i].key
            != res[j].key by {
            assert(before[i] == res[i]);
            if j < before.len() {
                assert(before[j] == res[j]);
            }
        }
    }
}

/// What the accesses to an account mean: every slot that the tracer lists under
/// `pre` or `post` occurs once and carries the index of the transaction; it is
/// dirty exactly if it is listed under `post`; and its value is the one listed
/// there, or the one listed under `pre` if it was only read.
pub proof fn law_slots_are_the_listed_ones(
    pre: Seq<(Seq<char>, Json)>,
    post: Seq<(Seq<char>, Json)>,
    tx_index: u32,
)
    ensures
        distinct_slots(account_slots(pre, post, tx_index)),
        forall|key: Seq<u8>|
            #[trigger] has_slot(account_slots(pre, post, tx_index), key) <==> lists(post, key)
                || lists(pre, key),
        forall|i: int|
            0 <= i < account_slots(pre, post, tx_index).len() ==> {
                let slot = #[trigger] account_slots(pre, post, tx_index)[i];
                &&& slot.tx_index == tx_index
                &&& slot.dirty == lists(post, slot.key)
                &&& if slot.dirty {
                    first_value(post, slot.key, slot.value)
                } else {
                    first_value(pre, slot.key, slot.value)
                }
            },
{
    let none = Seq::<SlotAccess>::empty();
    let written = with_slots(none, post, true, tx_index);
    let all = account_slots(pre, post, tx_index);
    lemma_with_slots(none, post, true, tx_index);
    lemma_with_slots(written, pre, false, tx_index);
    assert forall|i: int| 0 <= i < all.len() implies {
        let slot = #[trigger] all[i];
        &&& slot.tx_index == tx_index
        &&& slot.dirty == lists(post, slot.key)
        &&& if slot.dirty {
            first_value(post, slot.key, slot.value)
        } else {
            first_value(pre, slot.key, slot.value)
        }
    } by {
        let slot = all[i];
        if i < written.len() {
            assert(written[i] == slot);
            assert(has_slot(written, slot.key));
        }
        assert(has_slot(written, slot.key) == lists(post, slot.key));
    }
}

proof fn lemma_accesses(
    pre: Seq<(Seq<char>, Json)>,
    post: Seq<(Seq<char>, Json)>,
    names: Seq<Seq<char>>,
    tx_index: u32,
    access: AccountAccess,
)
    ensures
        accesses_of(pre, post, names, tx_index).contains(access) <==> exists|i: int|
            0 <= i < names.len() && account_access(pre, post, #[trigger] names[i], tx_index) == Some(
                access,
            ),
    decreases names.len(),
{
    let res = accesses_of(pre, post, names, tx_index);
    if names.len() > 0 {
        let front = names.drop_last();
        let last = names.len() - 1;
        let before = accesses_of(pre, post, front, tx_index);
        lemma_accesses(pre, post, front, tx_index, access);
        if before.contains(access) {
            let i = choose|i: int|
                0 <= i < front.len() && account_access(pre, post, #[trigger] front[i], tx_index)
                    == Some(access);
            assert(names[i] == front[i]);
            let k = choose|k: int| 0 <= k < before.len() && before[k] == access;
            assert(res[k] == access);
        } else if res.contains(access) {
            let k = choose|k: int| 0 <= k < res.len() && res[k] == access;
            if k < before.len() {
                assert(before[k] == access);
            }
            assert(account_access(pre, post, names[last], tx_index) == Some(access));
        }
        if exists|i: int|
            0 <= i < names.len() && account_access(pre, post, #[trigger] names[i], tx_index) == Some(
                access,
            ) {
            let i = choose|i: int|
                0 <= i < names.len() && account_access(pre, post, #[trigger] names[i], tx_index)
                    == Some(access);
            if i < last {
                assert(front[i] == names[i]);
            } else {
                assert(res[res.len() - 1] == access);
            }
        }
    }
}

/// The reported accounts are those under `pre` or `post` whose name is an
/// address and in which a slot is accessed; an account without such a slot is
/// not reported.
pub proof fn law_accounts_are_the_listed_ones(diff: Json, tx_index: u32, access: AccountAccess)
    ensures
        ({
            let pre = object_at(diff, "pre"@);
            let post = object_at(diff, "post"@);
            diff_accesses(diff, tx_index).contains(access) <==> exists|name: Seq<char>|
                (names_of(pre).contains(name) || names_of(post).contains(name))
                    && #[trigger] account_access(pre, post, name, tx_index) == Some(access)
        }),
        diff_accesses(diff, tx_index).contains(access) ==> access.slots.len() > 0,
{
    let pre = object_at(diff, "pre"@);
    let post = object_at(diff, "post"@);
    let names = account_names(pre, post);
    let fresh = |name: Seq<char>| field(pre, name) is None;
    let others = names_of(post).filter(fresh);
    lemma_accesses(pre, post, names, tx_index, access);
    assert forall|name: Seq<char>| names.contains(name) <==> names_of(pre).contains(name)
        || names_of(post).contains(name) by {
        if others.contains(name) {
            names_of(post).lemma_filter_contains_rev(fresh, name);
        }
        lemma_field_named(pre, name);
        if names_of(pre).contains(name) {
            let i = choose|i: int| 0 <= i < names_of(pre).len() && names_of(pre)[i] == name;
            assert(names[i] == name);
        } else if names_of(post).contains(name) {
            assert(fresh(name));
            let k = choose|k: int| 0 <= k < names_of(post).len() && names_of(post)[k] == name;
            names_of(post).lemma_filter_contains(fresh, k);
            let i = choose|i: int| 0 <= i < others.len() && others[i] == name;
            assert(names[names_of(pre).len() + i] == name);
        }
        if names.contains(name) {
            let i = choose|i: int| 0 <= i < names.len() && names[i] == name;
            if i < names_of(pre).len() {
                assert(names_of(pre)[i] == name);
            } else {
                assert(others[i - names_of(pre).len()] == name);
                assert(others.contains(name));
            }
        }
    }
    if exists|i: int|
        0 <= i < names.len() && account_access(pre, post, #[trigger] names[i], tx_index) == Some(
            access,
        ) {
        let i = choose|i: int|
            0 <= i < names.len() && account_access(pre, post, #[trigger] names[i], tx_index)
                == Some(access);
        assert(names.contains(names[i]));
    }
    if exists|name: Seq<char>|
        (names_of(pre).contains(name) || names_of(post).contains(name))
            && #[trigger] account_access(pre, post, name, tx_index) == Some(access) {
        let name = choose|name: Seq<char>|
            (names_of(pre).contains(name) || names_of(post).contains(name))
                && #[trigger] account_access(pre, post, name, tx_index) == Some(access);
        assert(names.contains(name));
        let i = choose|i: int| 0 <= i < names.len() && names[i] == name;
        assert(account_access(pre, post, names[i], tx_index) == Some(access));
    }
}

/// There is a field with a name exactly if the name is one of the names.
pub proof fn lemma_field_named(entries: Seq<(Seq<char>, Json)>, name: Seq<char>)
    ensures
        field(entries, name) is Some <==> names_of(entries).contains(name),
    decreases entries.len(),
{
    let names = names_of(entries);
    if entries.len() > 0 {
        let rest = entries.skip(1);
        lemma_field_named(rest, name);
        if names_of(rest).contains(name) {
            let i = choose|i: int| 0 <= i < rest.len() && names_of(rest)[i] == name;
            assert(names[i + 1] == name);
        }
        if names.contains(name) {
            let i = choose|i: int| 0 <= i < names.len() && names[i] == name;
            if i > 0 {
                assert(names_of(rest)[i - 1] == name);
            }
        }
        if entries[0].0 == name {
            assert(names[0] == name);
        }
    }
}

} // verus!
