//! What the accesses that are read from a difference say of it.
use vstd::prelude::*;

use crate::access_list::{slots_view, SlotAccess, StorageAccessItem};
use crate::hex_text::{
    address_of, bytes32_of, hex_of, law_address_round_trip, law_bytes32_round_trip,
};
use crate::json::{field, names_once, Json};
use crate::prestate::{
    account_access, account_names, account_slots, accounts_view, accesses_of, diff_accesses,
    first_value, has_slot, law_slots_are_the_listed_ones, lemma_field_named, lists,
    names_of, names_slot, object_at, slot_value, storage_of, with_slots, AccountAccess,
};

verus! {

/// The accounts that a difference lists under `part`.
pub open spec fn accounts_under(diff: Json, part: Seq<char>) -> Seq<(Seq<char>, Json)> {
    match diff {
        Json::Object(top) => match field(top, part) {
            Some(Json::Object(accounts)) => accounts,
            _ => Seq::empty(),
        },
        _ => Seq::empty(),
    }
}

/// The slots that a difference lists under `part` for the account with the given
/// name.
pub open spec fn slots_under(diff: Json, part: Seq<char>, name: Seq<char>) -> Seq<
    (Seq<char>, Json),
> {
    match field(accounts_under(diff, part), name) {
        Some(Json::Object(account)) => match field(account, "storage"@) {
            Some(Json::Object(slots)) => slots,
            _ => Seq::empty(),
        },
        _ => Seq::empty(),
    }
}

/// Whether the entry at `at` is the first that names the slot `key`.
pub open spec fn first_names(slots: Seq<(Seq<char>, Json)>, at: int, key: Seq<u8>) -> bool {
    &&& 0 <= at < slots.len()
    &&& bytes32_of(slots[at].0) == Some(key)
    &&& forall|i: int| 0 <= i < at ==> bytes32_of((#[trigger] slots[i]).0) != Some(key)
}

/// Whether no entry names the slot `key`.
pub open spec fn is_unnamed(slots: Seq<(Seq<char>, Json)>, key: Seq<u8>) -> bool {
    forall|i: int| 0 <= i < slots.len() ==> bytes32_of((#[trigger] slots[i]).0) != Some(key)
}

/// Whether `value` is what an entry says of its slot: the bytes of its text, or
/// zeros if it is no text of up to 64 hexadecimal digits.
pub open spec fn is_content(json: Json, value: Seq<u8>) -> bool {
    match json {
        Json::Str(text) => match bytes32_of(text) {
            Some(bytes) => value == bytes,
            None => value == Seq::new(32, |i: int| 0u8),
        },
        _ => value == Seq::new(32, |i: int| 0u8),
    }
}

/// Whether `items` has an access to the slot `key` by the transaction `tx_index`,
/// a write or a read, with the value that an entry says.
pub open spec fn has_access(
    items: Seq<StorageAccessItem>,
    tx_index: u32,
    dirty: bool,
    key: Seq<u8>,
    content: Json,
) -> bool {
    exists|m: int|
        0 <= m < items.len() && (#[trigger] items[m]).key@ == key && items[m].dirty == dirty
            && items[m].tx_index == tx_index && is_content(content, items[m].value@)
}

/// Whether an account with its accesses is what a difference says of the account
/// with the given name: a write of every slot that is listed under `post`, then a
/// read of every slot that is only listed under `pre`, each in the order in which
/// they are listed, and nothing else.
pub open spec fn reports(
    entry: ([u8; 20], Vec<StorageAccessItem>),
    diff: Json,
    tx_index: u32,
    name: Seq<char>,
) -> bool {
    let pre = slots_under(diff, "pre"@, name);
    let post = slots_under(diff, "post"@, name);
    let items = entry.1@;
    &&& address_of(name) == Some(entry.0@)
    &&& items.len() > 0
    &&& forall|at: int, key: Seq<u8>| #[trigger]
        first_names(post, at, key) ==> has_access(items, tx_index, true, key, post[at].1)
    &&& forall|at: int, key: Seq<u8>| #[trigger]
        first_names(pre, at, key) && is_unnamed(post, key) ==> has_access(
            items,
            tx_index,
            false,
            key,
            pre[at].1,
        )
    &&& forall|m: int|
        0 <= m < items.len() ==> {
            &&& (#[trigger] items[m]).tx_index == tx_index
            &&& items[m].dirty <==> !is_unnamed(post, items[m].key@)
            &&& items[m].dirty || !is_unnamed(pre, items[m].key@)
        }
    &&& forall|m: int, n: int|
        #![trigger items[m], items[n]]
        0 <= m < n < items.len() ==> items[m].key@ != items[n].key@ && (items[n].dirty
            ==> items[m].dirty)
    &&& forall|m: int, n: int, x: int, y: int|
        #![trigger first_names(post, x, items[m].key@), first_names(post, y, items[n].key@)]
        0 <= m < n < items.len() && items[n].dirty && first_names(post, x, items[m].key@)
            && first_names(post, y, items[n].key@) ==> x < y
    &&& forall|m: int, n: int, x: int, y: int|
        #![trigger first_names(pre, x, items[m].key@), first_names(pre, y, items[n].key@)]
        0 <= m < n < items.len() && !items[m].dirty && first_names(pre, x, items[m].key@)
            && first_names(pre, y, items[n].key@) ==> x < y
}

proof fn lemma_under(diff: Json, part: Seq<char>, name: Seq<char>)
    ensures
        accounts_under(diff, part) == object_at(diff, part),
        slots_under(diff, part, name) == storage_of(object_at(diff, part), name),
{
    assert(accounts_under(diff, part) == object_at(diff, part));
}

proof fn lemma_named(slots: Seq<(Seq<char>, Json)>, key: Seq<u8>)
    ensures
        is_unnamed(slots, key) <==> !lists(slots, key),
{
    if lists(slots, key) {
        let at = choose|at: int| names_slot(slots, at, key);
        assert(bytes32_of(slots[at].0) == Some(key));
    }
    if !is_unnamed(slots, key) {
        let i = choose|i: int| 0 <= i < slots.len() && bytes32_of((#[trigger] slots[i]).0) == Some(key);
        assert(names_slot(slots, i, key));
    }
}

proof fn lemma_first_value(
    slots: Seq<(Seq<char>, Json)>,
    key: Seq<u8>,
    value: Seq<u8>,
    at: int,
)
    requires
        first_value(slots, key, value),
        first_names(slots, at, key),
    ensures
        is_content(slots[at].1, value),
{
    let x = choose|x: int|
        #[trigger] names_slot(slots, x, key) && value == slot_value(slots[x].1) && forall|i: int|
            i < x ==> !names_slot(slots, i, key);
    assert(names_slot(slots, at, key));
    if x < at {
        assert(bytes32_of(slots[x].0) == Some(key));
    }
    assert(x == at);
}

/// Slots are added in the order in which the list first names them.
proof fn lemma_added_in_order(
    slots: Seq<SlotAccess>,
    listed: Seq<(Seq<char>, Json)>,
    dirty: bool,
    tx_index: u32,
)
    ensures
        ({
            let res = with_slots(slots, listed, dirty, tx_index);
            &&& res.len() >= slots.len()
            &&& forall|i: int| 0 <= i < slots.len() ==> #[trigger] res[i] == slots[i]
            &&& forall|i: int|
                slots.len() <= i < res.len() ==> (#[trigger] res[i]).dirty == dirty && !is_unnamed(
                    listed,
                    res[i].key,
                )
            &&& forall|i: int, j: int, x: int, y: int|
                #![trigger first_names(listed, x, res[i].key), first_names(listed, y, res[j].key)]
                slots.len() <= i < j < res.len() && first_names(listed, x, res[i].key)
                    && first_names(listed, y, res[j].key) ==> x < y
        }),
    decreases listed.len(),
{
    if listed.len() > 0 {
        let front = listed.drop_last();
        let last = listed.len() - 1;
        let before = with_slots(slots, front, dirty, tx_index);
        let res = with_slots(slots, listed, dirty, tx_index);
        lemma_added_in_order(slots, front, dirty, tx_index);
        assert forall|i: int| slots.len() <= i < res.len() implies (#[trigger] res[i]).dirty == dirty
            && !is_unnamed(listed, res[i].key) by {
            if i < before.len() {
                assert(res[i] == before[i]);
                let k = choose|k: int|
                    0 <= k < front.len() && bytes32_of((#[trigger] front[k]).0) == Some(
                        before[i].key,
                    );
                assert(listed[k] == front[k]);
                assert(bytes32_of(listed[k].0) == Some(res[i].key));
            } else {
                assert(bytes32_of(listed[last].0) == Some(res[i].key));
            }
        }
        assert forall|i: int, j: int, x: int, y: int|
            #![trigger first_names(listed, x, res[i].key), first_names(listed, y, res[j].key)]
            slots.len() <= i < j < res.len() && first_names(listed, x, res[i].key) && first_names(
                listed,
                y,
                res[j].key,
            ) implies x < y by {
            assert(res[i] == before[i]);
            let k = choose|k: int|
                0 <= k < front.len() && bytes32_of((#[trigger] front[k]).0) == Some(before[i].key);
            assert(bytes32_of(listed[k].0) == Some(res[i].key));
            assert(x <= k);
            assert forall|m: int| 0 <= m < front.len() implies front[m] == listed[m] by {}
            assert(first_names(front, x, before[i].key));
            if j < before.len() {
                assert(res[j] == before[j]);
                let l = choose|l: int|
                    0 <= l < front.len() && bytes32_of((#[trigger] front[l]).0) == Some(
                        before[j].key,
                    );
                assert(bytes32_of(listed[l].0) == Some(res[j].key));
                assert(y <= l);
                assert(first_names(front, y, before[j].key));
            } else if y < last {
                assert(names_slot(front, y, res[j].key));
                lemma_named_is_there(slots, front, dirty, tx_index, y, res[j].key);
            }
        }
    }
}

/// What a list names is there when its slots have been added.
proof fn lemma_named_is_there(
    slots: Seq<SlotAccess>,
    listed: Seq<(Seq<char>, Json)>,
    dirty: bool,
    tx_index: u32,
    at: int,
    key: Seq<u8>,
)
    requires
        names_slot(listed, at, key),
    ensures
        has_slot(with_slots(slots, listed, dirty, tx_index), key),
    decreases listed.len(),
{
    let front = listed.drop_last();
    let last = listed.len() - 1;
    let before = with_slots(slots, front, dirty, tx_index);
    let res = with_slots(slots, listed, dirty, tx_index);
    if at < last {
        assert(names_slot(front, at, key));
        lemma_named_is_there(slots, front, dirty, tx_index, at, key);
        let i = choose|i: int| 0 <= i < before.len() && (#[trigger] before[i]).key == key;
        assert(res[i] == before[i]);
    } else if !has_slot(before, key) {
        assert(res[before.len() as int].key == key);
    }
}

/// What the accesses to an account mean.
proof fn lemma_reports(
    entry: ([u8; 20], Vec<StorageAccessItem>),
    diff: Json,
    tx_index: u32,
    name: Seq<char>,
)
    requires
        account_access(object_at(diff, "pre"@), object_at(diff, "post"@), name, tx_index) == Some(
            AccountAccess { address: entry.0@, slots: slots_view(entry.1@) },
        ),
    ensures
        reports(entry, diff, tx_index, name),
{
    let pre = slots_under(diff, "pre"@, name);
    let post = slots_under(diff, "post"@, name);
    lemma_under(diff, "pre"@, name);
    lemma_under(diff, "post"@, name);
    let items = entry.1@;
    let slots = slots_view(items);
    assert(slots == account_slots(pre, post, tx_index));
    law_slots_are_the_listed_ones(pre, post, tx_index);
    assert forall|m: int| 0 <= m < items.len() implies {
        let slot = #[trigger] items[m];
        &&& slots[m].key == slot.key@
        &&& slots[m].dirty == slot.dirty
        &&& slots[m].tx_index == slot.tx_index
        &&& slots[m].value == slot.value@
    } by {}
    assert forall|at: int, key: Seq<u8>| #[trigger] first_names(post, at, key) implies has_access(
        items,
        tx_index,
        true,
        key,
        post[at].1,
    ) by {
        assert(names_slot(post, at, key));
        assert(lists(post, key));
        assert(has_slot(slots, key));
        let m = choose|m: int| 0 <= m < slots.len() && (#[trigger] slots[m]).key == key;
        assert(slots[m] == account_slots(pre, post, tx_index)[m]);
        assert(items[m].key@ == key);
        lemma_first_value(post, key, items[m].value@, at);
    }
    assert forall|at: int, key: Seq<u8>| #[trigger]
        first_names(pre, at, key) && is_unnamed(post, key) implies has_access(
        items,
        tx_index,
        false,
        key,
        pre[at].1,
    ) by {
        lemma_named(post, key);
        assert(names_slot(pre, at, key));
        assert(lists(pre, key));
        assert(has_slot(slots, key));
        let m = choose|m: int| 0 <= m < slots.len() && (#[trigger] slots[m]).key == key;
        assert(slots[m] == account_slots(pre, post, tx_index)[m]);
        assert(items[m].key@ == key);
        lemma_first_value(pre, key, items[m].value@, at);
    }
    assert forall|m: int| 0 <= m < items.len() implies {
        &&& (#[trigger] items[m]).tx_index == tx_index
        &&& items[m].dirty <==> !is_unnamed(post, items[m].key@)
        &&& items[m].dirty || !is_unnamed(pre, items[m].key@)
    } by {
        let key = items[m].key@;
        lemma_named(post, key);
        lemma_named(pre, key);
        assert(slots[m] == account_slots(pre, post, tx_index)[m]);
        assert(slots[m].key == key);
        assert(has_slot(slots, key));
    }
    assert forall|m: int, n: int| #![trigger items[m], items[n]] 0 <= m < n < items.len() implies items[m].key@
        != items[n].key@ by {
        assert(slots[m].key != slots[n].key);
    }
    let none = Seq::<SlotAccess>::empty();
    let written = with_slots(none, post, true, tx_index);
    lemma_added_in_order(none, post, true, tx_index);
    lemma_added_in_order(written, pre, false, tx_index);
    assert forall|m: int| 0 <= m < items.len() implies (#[trigger] items[m]).dirty == (m
        < written.len()) by {
        assert(slots[m].dirty == items[m].dirty);
        if m < written.len() {
            assert(slots[m] == written[m]);
        }
    }
    assert forall|m: int, n: int, x: int, y: int|
        #![trigger first_names(post, x, items[m].key@), first_names(post, y, items[n].key@)]
        0 <= m < n < items.len() && items[n].dirty && first_names(post, x, items[m].key@)
            && first_names(post, y, items[n].key@) implies x < y by {
        assert(slots[m] == written[m] && slots[n] == written[n]);
        assert(first_names(post, x, written[m].key) && first_names(post, y, written[n].key));
    }
    assert forall|m: int, n: int, x: int, y: int|
        #![trigger first_names(pre, x, items[m].key@), first_names(pre, y, items[n].key@)]
        0 <= m < n < items.len() && !items[m].dirty && first_names(pre, x, items[m].key@)
            && first_names(pre, y, items[n].key@) implies x < y by {
        assert(first_names(pre, x, slots[m].key) && first_names(pre, y, slots[n].key));
    }
}

/// The names of the accounts that are reported, in the order of the report.
proof fn lemma_reported_names(
    pre: Seq<(Seq<char>, Json)>,
    post: Seq<(Seq<char>, Json)>,
    names: Seq<Seq<char>>,
    tx_index: u32,
) -> (kept: Seq<Seq<char>>)
    ensures
        kept.len() == accesses_of(pre, post, names, tx_index).len(),
        forall|j: int|
            0 <= j < kept.len() ==> account_access(pre, post, #[trigger] kept[j], tx_index) == Some(
                accesses_of(pre, post, names, tx_index)[j],
            ),
        forall|j: int| 0 <= j < kept.len() ==> names.contains(#[trigger] kept[j]),
        forall|i: int|
            0 <= i < names.len() && account_access(pre, post, #[trigger] names[i], tx_index) is Some
                ==> kept.contains(names[i]),
        names.no_duplicates() ==> kept.no_duplicates(),
    decreases names.len(),
{
    if names.len() == 0 {
        Seq::empty()
    } else {
        let front = names.drop_last();
        let last = names.len() - 1;
        let before = lemma_reported_names(pre, post, front, tx_index);
        assert forall|j: int| 0 <= j < before.len() implies names.contains(#[trigger] before[j]) by {
            let i = choose|i: int| 0 <= i < front.len() && front[i] == before[j];
            assert(names[i] == before[j]);
        }
        if account_access(pre, post, names[last], tx_index) is Some {
            let kept = before.push(names[last]);
            assert forall|j: int| 0 <= j < kept.len() implies names.contains(#[trigger] kept[j]) by {
                if j < before.len() {
                    assert(kept[j] == before[j]);
                }
            }
            assert forall|i: int|
                0 <= i < names.len() && account_access(
                    pre,
                    post,
                    #[trigger] names[i],
                    tx_index,
                ) is Some implies kept.contains(names[i]) by {
                if i < last {
                    assert(front[i] == names[i]);
                    let j = choose|j: int| 0 <= j < before.len() && before[j] == names[i];
                    assert(kept[j] == names[i]);
                } else {
                    assert(kept[before.len() as int] == names[i]);
                }
            }
            if names.no_duplicates() {
                assert forall|i: int, j: int| 0 <= i < j < kept.len() implies kept[i] != kept[j] by {
                    if j == before.len() {
                        let k = choose|k: int| 0 <= k < front.len() && front[k] == before[i];
                        assert(names[k] == before[i]);
                    }
                }
            }
            kept
        } else {
            assert forall|i: int|
                0 <= i < names.len() && account_access(
                    pre,
                    post,
                    #[trigger] names[i],
                    tx_index,
                ) is Some implies before.contains(names[i]) by {
                if i < last {
                    assert(front[i] == names[i]);
                }
            }
            before
        }
    }
}

proof fn lemma_names_once(entries: Seq<(Seq<char>, Json)>)
    requires
        names_once(entries),
    ensures
        names_of(entries).no_duplicates(),
{
    let names = names_of(entries);
    assert forall|i: int, j: int| 0 <= i < names.len() && 0 <= j < names.len() && i != j implies names[i]
        != names[j] by {
        if i < j {
            assert(entries[i].0 != entries[j].0);
        } else {
            assert(entries[j].0 != entries[i].0);
        }
    }
}

proof fn lemma_filter_no_duplicates(names: Seq<Seq<char>>, f: spec_fn(Seq<char>) -> bool)
    requires
        names.no_duplicates(),
    ensures
        names.filter(f).no_duplicates(),
        forall|name: Seq<char>| #[trigger]
            names.filter(f).contains(name) <==> names.contains(name) && f(name),
    decreases names.len(),
{
    reveal(Seq::filter);
    let res = names.filter(f);
    if names.len() > 0 {
        let front = names.drop_last();
        let last = names.len() - 1;
        assert forall|i: int, j: int| 0 <= i < front.len() && 0 <= j < front.len() && i != j implies front[i]
            != front[j] by {
            assert(names[i] != names[j]);
        }
        lemma_filter_no_duplicates(front, f);
        let before = front.filter(f);
        assert forall|name: Seq<char>| #[trigger] res.contains(name) <==> names.contains(name) && f(
            name,
        ) by {
            if before.contains(name) {
                let i = choose|i: int| 0 <= i < before.len() && before[i] == name;
                assert(res[i] == name);
                let k = choose|k: int| 0 <= k < front.len() && front[k] == name;
                assert(names[k] == name);
            }
            if res.contains(name) {
                let i = choose|i: int| 0 <= i < res.len() && res[i] == name;
                if i < before.len() {
                    assert(before[i] == name);
                } else {
                    assert(names[last] == name);
                }
            }
            if names.contains(name) && f(name) {
                let k = choose|k: int| 0 <= k < names.len() && names[k] == name;
                if k < last {
                    assert(front[k] == name);
                } else {
                    assert(res[res.len() - 1] == name);
                }
            }
        }
        assert forall|i: int, j: int| 0 <= i < res.len() && 0 <= j < res.len() && i != j implies res[i]
            != res[j] by {
            if res.len() > before.len() && (i == before.len() || j == before.len()) {
                let k = if i == before.len() { j } else { i };
                assert(before.contains(before[k]));
                let l = choose|l: int| 0 <= l < front.len() && front[l] == before[k];
                assert(names[l] != names[last]);
            }
        }
    }
}

/// The names of the accounts of a difference, each once.
proof fn lemma_account_names(pre: Seq<(Seq<char>, Json)>, post: Seq<(Seq<char>, Json)>)
    requires
        names_once(pre),
        names_once(post),
    ensures
        account_names(pre, post).no_duplicates(),
        forall|name: Seq<char>| #[trigger]
            account_names(pre, post).contains(name) <==> field(pre, name) is Some || field(
                post,
                name,
            ) is Some,
{
    let fresh = |name: Seq<char>| field(pre, name) is None;
    let first = names_of(pre);
    let others = names_of(post).filter(fresh);
    let all = account_names(pre, post);
    lemma_names_once(pre);
    lemma_names_once(post);
    lemma_filter_no_duplicates(names_of(post), fresh);
    assert forall|name: Seq<char>| #[trigger] all.contains(name) <==> field(pre, name) is Some
        || field(post, name) is Some by {
        lemma_field_named(pre, name);
        lemma_field_named(post, name);
        if first.contains(name) {
            let i = choose|i: int| 0 <= i < first.len() && first[i] == name;
            assert(all[i] == name);
        }
        if others.contains(name) {
            let i = choose|i: int| 0 <= i < others.len() && others[i] == name;
            assert(all[first.len() + i] == name);
        }
        if all.contains(name) {
            let i = choose|i: int| 0 <= i < all.len() && all[i] == name;
            if i < first.len() {
                assert(first[i] == name);
            } else {
                assert(others[i - first.len()] == name);
                assert(others.contains(name));
            }
        }
    }
    assert forall|i: int, j: int| 0 <= i < all.len() && 0 <= j < all.len() && i != j implies all[i]
        != all[j] by {
        if i < first.len() && j >= first.len() {
            assert(first.contains(first[i]));
            assert(others.contains(others[j - first.len()]));
            lemma_field_named(pre, first[i]);
        }
        if j < first.len() && i >= first.len() {
            assert(first.contains(first[j]));
            assert(others.contains(others[i - first.len()]));
            lemma_field_named(pre, first[j]);
        }
    }
}

/// Whether a slot is listed under `pre` or `post` for the account with the given
/// name, and its name can be read.
pub open spec fn is_reported(diff: Json, name: Seq<char>) -> bool {
    &&& address_of(name) is Some
    &&& exists|key: Seq<u8>| names_key(diff, name, key)
}

/// Whether the slot `key` is listed under `pre` or `post` for the account with the
/// given name.
pub open spec fn names_key(diff: Json, name: Seq<char>, key: Seq<u8>) -> bool {
    ||| !is_unnamed(slots_under(diff, "pre"@, name), key)
    ||| !is_unnamed(slots_under(diff, "post"@, name), key)
}

/// An account of a difference is reported exactly if its name is an address and
/// one of its slots is listed.
proof fn lemma_reported(diff: Json, tx_index: u32, name: Seq<char>)
    ensures
        account_access(
            object_at(diff, "pre"@),
            object_at(diff, "post"@),
            name,
            tx_index,
        ) is Some <==> is_reported(diff, name),
{
    let pre = slots_under(diff, "pre"@, name);
    let post = slots_under(diff, "post"@, name);
    lemma_under(diff, "pre"@, name);
    lemma_under(diff, "post"@, name);
    law_slots_are_the_listed_ones(pre, post, tx_index);
    let slots = account_slots(pre, post, tx_index);
    if slots.len() > 0 {
        let key = slots[0].key;
        assert(has_slot(slots, key));
        lemma_named(pre, key);
        lemma_named(post, key);
        assert(names_key(diff, name, key));
    }
    if is_reported(diff, name) {
        let key = choose|key: Seq<u8>| names_key(diff, name, key);
        lemma_named(pre, key);
        lemma_named(post, key);
        assert(has_slot(slots, key));
        let m = choose|m: int| 0 <= m < slots.len() && (#[trigger] slots[m]).key == key;
        assert(slots.len() > 0);
    }
}

/// Every account of a difference in which a slot is listed is reported, with a
/// write of every slot under `post`, a read of every slot that is only under
/// `pre`, and nothing else.
pub proof fn law_every_listed_account_is_reported(
    found: Seq<([u8; 20], Vec<StorageAccessItem>)>,
    diff: Json,
    tx_index: u32,
    name: Seq<char>,
)
    requires
        accounts_view(found) == diff_accesses(diff, tx_index),
        is_reported(diff, name),
    ensures
        exists|j: int| 0 <= j < found.len() && reports(#[trigger] found[j], diff, tx_index, name),
{
    let pre = object_at(diff, "pre"@);
    let post = object_at(diff, "post"@);
    let names = account_names(pre, post);
    let kept = lemma_reported_names(pre, post, names, tx_index);
    lemma_reported(diff, tx_index, name);
    lemma_under(diff, "pre"@, name);
    lemma_under(diff, "post"@, name);
    assert(names.contains(name)) by {
        lemma_field_named(pre, name);
        lemma_field_named(post, name);
        let key = choose|key: Seq<u8>| names_key(diff, name, key);
        if names_of(pre).contains(name) {
            let i = choose|i: int| 0 <= i < names_of(pre).len() && names_of(pre)[i] == name;
            assert(names[i] == name);
        } else {
            let fresh = |name: Seq<char>| field(pre, name) is None;
            assert(field(post, name) is Some);
            let k = choose|k: int| 0 <= k < names_of(post).len() && names_of(post)[k] == name;
            assert(fresh(name));
            names_of(post).lemma_filter_contains(fresh, k);
            let others = names_of(post).filter(fresh);
            let i = choose|i: int| 0 <= i < others.len() && others[i] == name;
            assert(names[names_of(pre).len() + i] == name);
        }
    }
    let i = choose|i: int| 0 <= i < names.len() && names[i] == name;
    assert(kept.contains(names[i]));
    let j = choose|j: int| 0 <= j < kept.len() && kept[j] == name;
    let access = accounts_view(found)[j];
    assert(account_access(pre, post, kept[j], tx_index) == Some(access));
    assert(access == AccountAccess { address: found[j].0@, slots: slots_view(found[j].1@) });
    lemma_reports(found[j], diff, tx_index, name);
}

/// What is reported are accounts of the difference, each of them once: there are
/// as many different names as accounts, and each account is what the difference
/// says of its name.
pub proof fn law_every_reported_account_is_listed(
    found: Seq<([u8; 20], Vec<StorageAccessItem>)>,
    diff: Json,
    tx_index: u32,
)
    requires
        accounts_view(found) == diff_accesses(diff, tx_index),
        names_once(accounts_under(diff, "pre"@)),
        names_once(accounts_under(diff, "post"@)),
    ensures
        exists|names: Seq<Seq<char>>| #[trigger]
            names.no_duplicates() && names.len() == found.len() && forall|j: int|
                0 <= j < found.len() ==> is_reported(diff, #[trigger] names[j]) && reports(
                    found[j],
                    diff,
                    tx_index,
                    names[j],
                ),
{
    let pre = object_at(diff, "pre"@);
    let post = object_at(diff, "post"@);
    lemma_under(diff, "pre"@, Seq::empty());
    lemma_under(diff, "post"@, Seq::empty());
    lemma_account_names(pre, post);
    let kept = lemma_reported_names(pre, post, account_names(pre, post), tx_index);
    assert(accounts_view(found).len() == found.len());
    assert forall|j: int| 0 <= j < found.len() implies is_reported(diff, #[trigger] kept[j])
        && reports(found[j], diff, tx_index, kept[j]) by {
        let access = accounts_view(found)[j];
        assert(account_access(pre, post, kept[j], tx_index) == Some(access));
        assert(access == AccountAccess { address: found[j].0@, slots: slots_view(found[j].1@) });
        lemma_reports(found[j], diff, tx_index, kept[j]);
        lemma_reported(diff, tx_index, kept[j]);
    }
    assert(kept.no_duplicates());
}

/// A slot that the tracer lists under `post` with the full text of its key and its
/// value, `0x` and two digits for each byte, is reported as a write of that value.
pub proof fn law_full_text_is_read_back(
    found: Seq<([u8; 20], Vec<StorageAccessItem>)>,
    diff: Json,
    tx_index: u32,
    address: Seq<u8>,
    key: Seq<u8>,
    value: Seq<u8>,
    at: int,
)
    requires
        accounts_view(found) == diff_accesses(diff, tx_index),
        address.len() == 20,
        key.len() == 32,
        value.len() == 32,
        ({
            let slots = slots_under(diff, "post"@, "0x"@ + hex_of(address));
            &&& 0 <= at < slots.len()
            &&& slots[at] == ("0x"@ + hex_of(key), Json::Str("0x"@ + hex_of(value)))
            &&& forall|i: int| 0 <= i < at ==> bytes32_of((#[trigger] slots[i]).0) != Some(key)
        }),
    ensures
        exists|j: int, m: int|
            {
                &&& 0 <= j < found.len()
                &&& found[j].0@ == address
                &&& 0 <= m < found[j].1@.len()
                &&& (#[trigger] found[j].1@[m]).key@ == key
                &&& found[j].1@[m].value@ == value
                &&& found[j].1@[m].dirty
                &&& found[j].1@[m].tx_index == tx_index
            },
{
    let name = "0x"@ + hex_of(address);
    let slots = slots_under(diff, "post"@, name);
    law_address_round_trip(address);
    law_bytes32_round_trip(key);
    law_bytes32_round_trip(value);
    assert(first_names(slots, at, key));
    assert(names_key(diff, name, key));
    law_every_listed_account_is_reported(found, diff, tx_index, name);
    let j = choose|j: int|
        0 <= j < found.len() && reports(#[trigger] found[j], diff, tx_index, name);
    let items = found[j].1@;
    assert(has_access(items, tx_index, true, key, slots[at].1));
    let m = choose|m: int|
        0 <= m < items.len() && (#[trigger] items[m]).key@ == key && items[m].dirty == true
            && items[m].tx_index == tx_index && is_content(slots[at].1, items[m].value@);
    assert(found[j].1@[m].key@ == key);
}

} // verus!
