//! Every field of an access list can be read from its payload.
use vstd::prelude::*;

use crate::access_list::{
    flag, AccountAccessListEncode, BlockAccessListEncode, StorageAccessItem,
};
use crate::changes::{AccountChanges, BlockChanges, SlotChanges};
use crate::order::{
    law_order_is_that_of_the_first_difference, law_sorting, lex_le, precedes, sorted_by_key,
    with_key, Keyed,
};
use crate::rlp_item::{
    be_bytes, encode, encode_all, lemma_item_fits, lemma_payload_fits, lemma_uint_bytes,
    length_limit, uint_item, RlpItem,
};
use crate::rlp_read::{
    begins_list, items_in, lemma_items_of_list, lemma_number_of, lemma_string_of, number_in,
    string_in,
};

verus! {

/// Whether bytes are a list of `count` items.
pub open spec fn is_list_of_items(bytes: Seq<u8>, count: nat) -> bool {
    begins_list(bytes) && items_in(bytes).len() == count
}

/// Whether bytes say of a slot what BEP-592 lists: the index, the flag, the key.
pub open spec fn says_slot(bytes: Seq<u8>, slot: StorageAccessItem) -> bool {
    let parts = items_in(bytes);
    &&& is_list_of_items(bytes, 3)
    &&& number_in(parts[0], 4) == Some(slot.tx_index as nat)
    &&& number_in(parts[1], 1) == Some(if slot.dirty { 1nat } else { 0nat })
    &&& string_in(parts[2]) == Some(slot.key@)
}

/// Whether bytes say of an account what BEP-592 lists: the index, the address,
/// the slots in their order.
pub open spec fn says_account(bytes: Seq<u8>, account: AccountAccessListEncode) -> bool {
    let parts = items_in(bytes);
    &&& is_list_of_items(bytes, 3)
    &&& number_in(parts[0], 4) == Some(account.tx_index as nat)
    &&& string_in(parts[1]) == Some(account.address@)
    &&& is_list_of_items(parts[2], account.storage_items@.len())
    &&& forall|s: int|
        0 <= s < account.storage_items@.len() ==> says_slot(
            #[trigger] items_in(parts[2])[s],
            account.storage_items@[s],
        )
}

proof fn lemma_says_slot(slot: StorageAccessItem)
    requires
        encode(slot.bep592_item()).len() < length_limit(),
    ensures
        says_slot(encode(slot.bep592_item()), slot),
{
    let parts = slot.bep592_item()->List_0;
    let items = items_in(encode(slot.bep592_item()));
    lemma_items_of_list(parts);
    assert(items[0] == encode(parts[0]) && items[1] == encode(parts[1]) && items[2] == encode(
        parts[2],
    ));
    lemma_uint_bytes(slot.tx_index as nat, 4);
    lemma_number_of(slot.tx_index as nat, 4);
    lemma_uint_bytes(flag(slot.dirty), 1);
    lemma_number_of(flag(slot.dirty), 1);
    lemma_string_of(slot.key@);
}

proof fn lemma_says_account(account: AccountAccessListEncode)
    requires
        encode(account.bep592_item()).len() < length_limit(),
    ensures
        says_account(encode(account.bep592_item()), account),
{
    let parts = account.bep592_item()->List_0;
    let items = items_in(encode(account.bep592_item()));
    lemma_items_of_list(parts);
    assert(items[0] == encode(parts[0]) && items[1] == encode(parts[1]) && items[2] == encode(
        parts[2],
    ));
    lemma_uint_bytes(account.tx_index as nat, 4);
    lemma_number_of(account.tx_index as nat, 4);
    lemma_string_of(account.address@);
    lemma_item_fits(parts, 2);
    let slots = parts[2]->List_0;
    lemma_items_of_list(slots);
    assert forall|s: int| 0 <= s < account.storage_items@.len() implies says_slot(
        #[trigger] items_in(items[2])[s],
        account.storage_items@[s],
    ) by {
        lemma_item_fits(slots, s);
        assert(items_in(items[2])[s] == encode(slots[s]));
        assert(slots[s] == account.storage_items@[s].bep592_item());
        lemma_says_slot(account.storage_items@[s]);
    }
}

/// A BEP-592 payload says what it was made of: the version, the number and the
/// hash of the block, the signature, and all accounts in their order, each with
/// its index, its address and all of its slots, each with its index, whether it
/// is dirty, and its key. A payload of 4 GiB or more is left out: its length
/// fields are cut off.
pub proof fn law_bep592_payload_says_every_field(block: BlockAccessListEncode, bytes: Seq<u8>)
    requires
        bytes == encode(block.bep592_item()),
        bytes.len() < 0x1_0000_0000,
    ensures
        is_list_of_items(bytes, 5),
        number_in(items_in(bytes)[0], 4) == Some(block.version as nat),
        number_in(items_in(bytes)[1], 8) == Some(block.number as nat),
        string_in(items_in(bytes)[2]) == Some(block.hash@),
        string_in(items_in(bytes)[3]) == Some(block.sign_data@),
        is_list_of_items(items_in(bytes)[4], block.accounts@.len()),
        forall|j: int|
            0 <= j < block.accounts@.len() ==> says_account(
                #[trigger] items_in(items_in(bytes)[4])[j],
                block.accounts@[j],
            ),
{
    let parts = block.bep592_item()->List_0;
    let items = items_in(bytes);
    lemma_items_of_list(parts);
    assert(items[0] == encode(parts[0]) && items[1] == encode(parts[1]) && items[2] == encode(
        parts[2],
    ) && items[3] == encode(parts[3]) && items[4] == encode(parts[4]));
    lemma_uint_bytes(block.version as nat, 4);
    lemma_number_of(block.version as nat, 4);
    lemma_wide_number(block.number);
    lemma_string_of(block.hash@);
    lemma_item_fits(parts, 3);
    lemma_string_of(block.sign_data@);
    lemma_item_fits(parts, 4);
    let list = parts[4]->List_0;
    lemma_items_of_list(list);
    assert forall|j: int| 0 <= j < block.accounts@.len() implies says_account(
        #[trigger] items_in(items[4])[j],
        block.accounts@[j],
    ) by {
        lemma_item_fits(list, j);
        assert(items_in(items[4])[j] == encode(list[j]));
        assert(list[j] == block.accounts@[j].bep592_item());
        lemma_says_account(block.accounts@[j]);
    }
}

proof fn lemma_wide_number(n: u64)
    ensures
        number_in(encode(uint_item(n as nat)), 8) == Some(n as nat),
{
    reveal_with_fuel(be_bytes, 10);
    lemma_number_of(n as nat, 8);
}

/// Whether bytes say of a write what EIP-7928 lists: 16 bits of the index,
/// counted from `first`, and the value.
pub open spec fn says_write(bytes: Seq<u8>, tx_index: u32, value: Seq<u8>, first: nat) -> bool {
    let parts = items_in(bytes);
    &&& is_list_of_items(bytes, 2)
    &&& number_in(parts[0], 2) == Some((tx_index as nat + first) % 0x1_0000)
    &&& string_in(parts[1]) == Some(value)
}

/// Whether bytes say of a slot what EIP-7928 lists of a changed one: the key and
/// all writes in their order.
pub open spec fn says_changes(bytes: Seq<u8>, slot: SlotChanges, first: nat) -> bool {
    let parts = items_in(bytes);
    &&& is_list_of_items(bytes, 2)
    &&& string_in(parts[0]) == Some(slot.key@)
    &&& is_list_of_items(parts[1], slot.writes@.len())
    &&& forall|w: int|
        0 <= w < slot.writes@.len() ==> says_write(
            #[trigger] items_in(parts[1])[w],
            slot.writes@[w].tx_index,
            slot.writes@[w].value@,
            first,
        )
}

/// Whether bytes say of an account what EIP-7928 lists: the address, the changed
/// slots, the keys of those that are only read, and no other changes.
pub open spec fn says_account_changes(bytes: Seq<u8>, account: AccountChanges, first: nat) -> bool {
    let parts = items_in(bytes);
    &&& is_list_of_items(bytes, 6)
    &&& string_in(parts[0]) == Some(account.address@)
    &&& is_list_of_items(parts[1], account.changes@.len())
    &&& forall|c: int|
        0 <= c < account.changes@.len() ==> says_changes(
            #[trigger] items_in(parts[1])[c],
            account.changes@[c],
            first,
        )
    &&& is_list_of_items(parts[2], account.reads@.len())
    &&& forall|r: int|
        0 <= r < account.reads@.len() ==> string_in(#[trigger] items_in(parts[2])[r]) == Some(
            account.reads@[r]@,
        )
    &&& is_list_of_items(parts[3], 0)
    &&& is_list_of_items(parts[4], 0)
    &&& is_list_of_items(parts[5], 0)
}

proof fn lemma_index(n: nat)
    ensures
        number_in(encode(uint_item(n % 0x1_0000)), 2) == Some(n % 0x1_0000),
{
    reveal_with_fuel(be_bytes, 4);
    lemma_number_of(n % 0x1_0000, 2);
}

proof fn lemma_says_pair(pair: RlpItem, tx_index: u32, value: Seq<u8>, first: nat)
    requires
        pair == RlpItem::List(
            seq![
                uint_item((tx_index as nat + first) % 0x1_0000),
                RlpItem::Str(value),
            ],
        ),
        encode(pair).len() < length_limit(),
    ensures
        says_write(encode(pair), tx_index, value, first),
{
    let parts = pair->List_0;
    lemma_items_of_list(parts);
    lemma_item_fits(parts, 1);
    assert(items_in(encode(pair))[0] == encode(parts[0]));
    assert(items_in(encode(pair))[1] == encode(parts[1]));
    lemma_index(tx_index as nat + first);
    lemma_string_of(value);
}

proof fn lemma_says_changes(slot: SlotChanges, first: nat)
    requires
        encode(slot.item_from(first)).len() < length_limit(),
    ensures
        says_changes(encode(slot.item_from(first)), slot, first),
{
    let parts = slot.item_from(first)->List_0;
    let items = items_in(encode(slot.item_from(first)));
    lemma_items_of_list(parts);
    assert(items[0] == encode(parts[0]) && items[1] == encode(parts[1]));
    lemma_string_of(slot.key@);
    lemma_item_fits(parts, 1);
    let writes = parts[1]->List_0;
    lemma_items_of_list(writes);
    assert forall|w: int| 0 <= w < slot.writes@.len() implies says_write(
        #[trigger] items_in(items[1])[w],
        slot.writes@[w].tx_index,
        slot.writes@[w].value@,
        first,
    ) by {
        lemma_item_fits(writes, w);
        assert(items_in(items[1])[w] == encode(writes[w]));
        assert(writes[w] == slot.writes@[w].item_from(first));
        lemma_says_pair(writes[w], slot.writes@[w].tx_index, slot.writes@[w].value@, first);
    }
}

/// What is listed of the keys of slots that are only read.
proof fn lemma_says_keys(list: Seq<RlpItem>, keys: Seq<Seq<u8>>)
    requires
        encode(RlpItem::List(list)).len() < length_limit(),
        list.len() == keys.len(),
        forall|r: int| 0 <= r < keys.len() ==> list[r] == RlpItem::Str(#[trigger] keys[r]),
    ensures
        is_list_of_items(encode(RlpItem::List(list)), keys.len()),
        forall|r: int|
            0 <= r < keys.len() ==> string_in(
                #[trigger] items_in(encode(RlpItem::List(list)))[r],
            ) == Some(keys[r]),
{
    lemma_items_of_list(list);
    let found = items_in(encode(RlpItem::List(list)));
    assert forall|r: int| 0 <= r < keys.len() implies string_in(#[trigger] found[r]) == Some(
        keys[r],
    ) by {
        lemma_item_fits(list, r);
        assert(found[r] == encode(list[r]));
        assert(list[r] == RlpItem::Str(keys[r]));
        lemma_payload_fits(list[r]);
        lemma_string_of(keys[r]);
    }
}

proof fn lemma_says_nothing()
    ensures
        is_list_of_items(encode(RlpItem::List(Seq::empty())), 0),
{
    let none = Seq::<RlpItem>::empty();
    assert(encode_all(none) =~= Seq::empty());
    assert(encode(RlpItem::List(none)).len() == 1);
    lemma_items_of_list(none);
}

proof fn lemma_says_account_changes(account: AccountChanges, first: nat)
    requires
        encode(account.item_from(first)).len() < length_limit(),
    ensures
        says_account_changes(encode(account.item_from(first)), account, first),
{
    let parts = account.item_from(first)->List_0;
    let items = items_in(encode(account.item_from(first)));
    lemma_items_of_list(parts);
    assert(items[0] == encode(parts[0]) && items[1] == encode(parts[1]) && items[2] == encode(
        parts[2],
    ) && items[3] == encode(parts[3]) && items[4] == encode(parts[4]) && items[5] == encode(
        parts[5],
    ));
    lemma_string_of(account.address@);
    lemma_item_fits(parts, 1);
    lemma_item_fits(parts, 2);
    lemma_says_nothing();
    let changes = parts[1]->List_0;
    lemma_items_of_list(changes);
    assert forall|c: int| 0 <= c < account.changes@.len() implies says_changes(
        #[trigger] items_in(items[1])[c],
        account.changes@[c],
        first,
    ) by {
        lemma_item_fits(changes, c);
        assert(items_in(items[1])[c] == encode(changes[c]));
        assert(changes[c] == account.changes@[c].item_from(first));
        lemma_says_changes(account.changes@[c], first);
    }
    let keys = account.reads@.map_values(|key: [u8; 32]| key@);
    lemma_says_keys(parts[2]->List_0, keys);
    assert forall|r: int| 0 <= r < account.reads@.len() implies string_in(
        #[trigger] items_in(items[2])[r],
    ) == Some(account.reads@[r]@) by {
        assert(keys[r] == account.reads@[r]@);
    }
}

/// The EIP-7928 list of changes says what it was made of: all accounts in their
/// order, each with its address, all changed slots with their keys and all writes
/// to them, the keys of all slots that are only read, and no other changes. A
/// write is listed with its value and with 16 bits of its index, counted from
/// `first`. A list of 4 GiB or more is left out: its length fields are cut off.
pub proof fn law_eip7928_changes_say_every_field(changes: BlockChanges, first: nat, bytes: Seq<u8>)
    requires
        bytes == encode(changes.item_from(first)),
        bytes.len() < 0x1_0000_0000,
    ensures
        is_list_of_items(bytes, changes.accounts@.len()),
        forall|j: int|
            0 <= j < changes.accounts@.len() ==> says_account_changes(
                #[trigger] items_in(bytes)[j],
                changes.accounts@[j],
                first,
            ),
{
    let parts = changes.item_from(first)->List_0;
    lemma_items_of_list(parts);
    assert forall|j: int| 0 <= j < changes.accounts@.len() implies says_account_changes(
        #[trigger] items_in(bytes)[j],
        changes.accounts@[j],
        first,
    ) by {
        lemma_item_fits(parts, j);
        assert(items_in(bytes)[j] == encode(parts[j]));
        assert(parts[j] == changes.accounts@[j].item_from(first));
        lemma_says_account_changes(changes.accounts@[j], first);
    }
}

proof fn lemma_same_filter<A>(s: Seq<A>, f: spec_fn(A) -> bool, g: spec_fn(A) -> bool)
    requires
        forall|x: A| #[trigger] f(x) == g(x),
    ensures
        s.filter(f) == s.filter(g),
    decreases s.len(),
{
    reveal(Seq::filter);
    if s.len() > 0 {
        lemma_same_filter(s.drop_last(), f, g);
        assert(f(s.last()) == g(s.last()));
    }
}

/// Whether `sorted` has the same slots as `slots`, in ascending order of their
/// keys, those with the same key in the order that they had.
pub open spec fn are_slots_in_order(
    sorted: Seq<StorageAccessItem>,
    slots: Seq<StorageAccessItem>,
) -> bool {
    &&& sorted.to_multiset() == slots.to_multiset()
    &&& forall|s: int, t: int|
        #![trigger sorted[s], sorted[t]]
        0 <= s < t < sorted.len() ==> sorted[s].key@ == sorted[t].key@ || precedes(
            sorted[s].key@,
            sorted[t].key@,
        )
    &&& forall|key: Seq<u8>| #[trigger] slots_at(sorted, key) == slots_at(slots, key)
}

/// The slots with the key `key`, in their order.
pub open spec fn slots_at(slots: Seq<StorageAccessItem>, key: Seq<u8>) -> Seq<StorageAccessItem> {
    slots.filter(|i: StorageAccessItem| i.key@ == key)
}

/// Whether `sorted` has the same accounts as `accounts`, in ascending order of
/// their addresses, those with the same address in the order that they had.
pub open spec fn are_accounts_in_order(
    sorted: Seq<AccountAccessListEncode>,
    accounts: Seq<AccountAccessListEncode>,
) -> bool {
    &&& sorted.to_multiset() == accounts.to_multiset()
    &&& forall|j: int, l: int|
        #![trigger sorted[j], sorted[l]]
        0 <= j < l < sorted.len() ==> sorted[j].address@ == sorted[l].address@ || precedes(
            sorted[j].address@,
            sorted[l].address@,
        )
    &&& forall|address: Seq<u8>| #[trigger]
        accounts_at(sorted, address) == accounts_at(accounts, address)
}

/// The accounts with the address `address`, in their order.
pub open spec fn accounts_at(accounts: Seq<AccountAccessListEncode>, address: Seq<u8>) -> Seq<
    AccountAccessListEncode,
> {
    accounts.filter(|a: AccountAccessListEncode| a.address@ == address)
}

/// Sorting puts slots in order.
pub proof fn law_slots_are_put_in_order(slots: Seq<StorageAccessItem>)
    ensures
        are_slots_in_order(sorted_by_key(slots), slots),
{
    let sorted = sorted_by_key(slots);
    law_sorting(slots);
    assert forall|s: int, t: int| #![trigger sorted[s], sorted[t]] 0 <= s < t < sorted.len() implies sorted[s].key@
        == sorted[t].key@ || precedes(sorted[s].key@, sorted[t].key@) by {
        assert(lex_le(sorted[s].spec_key(), sorted[t].spec_key()));
        law_order_is_that_of_the_first_difference(sorted[s].key@, sorted[t].key@);
    }
    assert forall|key: Seq<u8>| #[trigger] slots_at(sorted, key) == slots_at(slots, key) by {
        let f = |i: StorageAccessItem| i.key@ == key;
        let g = |i: StorageAccessItem| i.spec_key() == key;
        lemma_same_filter(sorted, f, g);
        lemma_same_filter(slots, f, g);
        assert(with_key(sorted, key) == with_key(slots, key));
    }
}

/// Sorting puts accounts in order.
pub proof fn law_accounts_are_put_in_order(accounts: Seq<AccountAccessListEncode>)
    ensures
        are_accounts_in_order(sorted_by_key(accounts), accounts),
{
    let sorted = sorted_by_key(accounts);
    law_sorting(accounts);
    assert forall|s: int, t: int| #![trigger sorted[s], sorted[t]] 0 <= s < t < sorted.len() implies sorted[s].address@
        == sorted[t].address@ || precedes(sorted[s].address@, sorted[t].address@) by {
        assert(lex_le(sorted[s].spec_key(), sorted[t].spec_key()));
        law_order_is_that_of_the_first_difference(sorted[s].address@, sorted[t].address@);
    }
    assert forall|address: Seq<u8>| #[trigger]
        accounts_at(sorted, address) == accounts_at(accounts, address) by {
        let f = |a: AccountAccessListEncode| a.address@ == address;
        let g = |a: AccountAccessListEncode| a.spec_key() == address;
        lemma_same_filter(sorted, f, g);
        lemma_same_filter(accounts, f, g);
        assert(with_key(sorted, address) == with_key(accounts, address));
    }
}

/// Whether bytes say of a written slot what EIP-7928 lists: the key, and one
/// write.
pub open spec fn says_change(bytes: Seq<u8>, slot: StorageAccessItem, first: nat) -> bool {
    let parts = items_in(bytes);
    &&& is_list_of_items(bytes, 2)
    &&& string_in(parts[0]) == Some(slot.key@)
    &&& is_list_of_items(parts[1], 1)
    &&& says_write(items_in(parts[1])[0], slot.tx_index, slot.value@, first)
}

/// Whether bytes say of an account what EIP-7928 lists, where `slots` are its
/// slots in ascending order: the address, the dirty ones among them with their
/// values, the keys of the others, and no other changes.
pub open spec fn says_effects(
    bytes: Seq<u8>,
    account: AccountAccessListEncode,
    slots: Seq<StorageAccessItem>,
    first: nat,
) -> bool {
    let parts = items_in(bytes);
    let written = slots.filter(|i: StorageAccessItem| i.dirty);
    let read = slots.filter(|i: StorageAccessItem| !i.dirty);
    &&& are_slots_in_order(slots, account.storage_items@)
    &&& is_list_of_items(bytes, 6)
    &&& string_in(parts[0]) == Some(account.address@)
    &&& is_list_of_items(parts[1], written.len())
    &&& forall|c: int|
        0 <= c < written.len() ==> says_change(
            #[trigger] items_in(parts[1])[c],
            written[c],
            first,
        )
    &&& is_list_of_items(parts[2], read.len())
    &&& forall|r: int|
        0 <= r < read.len() ==> string_in(#[trigger] items_in(parts[2])[r]) == Some(read[r].key@)
    &&& is_list_of_items(parts[3], 0)
    &&& is_list_of_items(parts[4], 0)
    &&& is_list_of_items(parts[5], 0)
}

/// Whether bytes say of an account what EIP-7928 lists, with its slots in
/// ascending order.
pub open spec fn says_all_effects(
    bytes: Seq<u8>,
    account: AccountAccessListEncode,
    first: nat,
) -> bool {
    exists|slots: Seq<StorageAccessItem>| #[trigger] says_effects(bytes, account, slots, first)
}

proof fn lemma_says_change(slot: StorageAccessItem, first: nat)
    requires
        encode(slot.change_item(first)).len() < length_limit(),
    ensures
        says_change(encode(slot.change_item(first)), slot, first),
{
    let parts = slot.change_item(first)->List_0;
    let items = items_in(encode(slot.change_item(first)));
    lemma_items_of_list(parts);
    assert(items[0] == encode(parts[0]) && items[1] == encode(parts[1]));
    lemma_string_of(slot.key@);
    lemma_item_fits(parts, 1);
    let writes = parts[1]->List_0;
    lemma_items_of_list(writes);
    lemma_item_fits(writes, 0);
    assert(items_in(items[1])[0] == encode(writes[0]));
    lemma_says_pair(writes[0], slot.tx_index, slot.value@, first);
}

proof fn lemma_says_effects(account: AccountAccessListEncode, first: nat)
    requires
        encode(account.eip7928_item_from(first)).len() < length_limit(),
    ensures
        says_effects(
            encode(account.eip7928_item_from(first)),
            account,
            sorted_by_key(account.storage_items@),
            first,
        ),
{
    let slots = sorted_by_key(account.storage_items@);
    let parts = account.eip7928_item_from(first)->List_0;
    let items = items_in(encode(account.eip7928_item_from(first)));
    law_slots_are_put_in_order(account.storage_items@);
    lemma_items_of_list(parts);
    assert(items[0] == encode(parts[0]) && items[1] == encode(parts[1]) && items[2] == encode(
        parts[2],
    ) && items[3] == encode(parts[3]) && items[4] == encode(parts[4]) && items[5] == encode(
        parts[5],
    ));
    lemma_string_of(account.address@);
    lemma_item_fits(parts, 1);
    lemma_item_fits(parts, 2);
    lemma_says_nothing();
    let written = slots.filter(|i: StorageAccessItem| i.dirty);
    let read = slots.filter(|i: StorageAccessItem| !i.dirty);
    let changes = parts[1]->List_0;
    lemma_items_of_list(changes);
    assert forall|c: int| 0 <= c < written.len() implies says_change(
        #[trigger] items_in(items[1])[c],
        written[c],
        first,
    ) by {
        lemma_item_fits(changes, c);
        assert(items_in(items[1])[c] == encode(changes[c]));
        assert(changes[c] == written[c].change_item(first));
        lemma_says_change(written[c], first);
    }
    let keys = read.map_values(|i: StorageAccessItem| i.key@);
    let list = parts[2]->List_0;
    assert forall|r: int| 0 <= r < keys.len() implies list[r] == RlpItem::Str(
        #[trigger] keys[r],
    ) by {
        assert(list[r] == read[r].read_item());
    }
    lemma_says_keys(list, keys);
    assert forall|r: int| 0 <= r < read.len() implies string_in(
        #[trigger] items_in(items[2])[r],
    ) == Some(read[r].key@) by {
        assert(keys[r] == read[r].key@);
    }
}

/// The EIP-7928 form of an access list says what it was made of: all accounts in
/// ascending order, each with its address, the dirty slots in ascending order with
/// their keys, values and 16 bits of their indices, counted from `first`, the keys
/// of the other slots in ascending order, and no other changes. A list of 4 GiB or
/// more is left out: its length fields are cut off.
pub proof fn law_eip7928_list_says_every_field(
    block: BlockAccessListEncode,
    first: nat,
    bytes: Seq<u8>,
)
    requires
        bytes == encode(block.eip7928_item_from(first)),
        bytes.len() < 0x1_0000_0000,
    ensures
        is_list_of_items(bytes, block.accounts@.len()),
        exists|sorted: Seq<AccountAccessListEncode>| #[trigger]
            are_accounts_in_order(sorted, block.accounts@) && forall|j: int|
                0 <= j < sorted.len() ==> says_all_effects(
                    #[trigger] items_in(bytes)[j],
                    sorted[j],
                    first,
                ),
{
    broadcast use vstd::seq_lib::group_to_multiset_ensures;
    let sorted = sorted_by_key(block.accounts@);
    law_accounts_are_put_in_order(block.accounts@);
    block.accounts@.to_multiset_ensures();
    sorted.to_multiset_ensures();
    assert(sorted.len() == block.accounts@.len());
    let parts = block.eip7928_item_from(first)->List_0;
    lemma_items_of_list(parts);
    assert forall|j: int| 0 <= j < sorted.len() implies says_all_effects(
        #[trigger] items_in(bytes)[j],
        sorted[j],
        first,
    ) by {
        lemma_item_fits(parts, j);
        assert(items_in(bytes)[j] == encode(parts[j]));
        assert(parts[j] == sorted[j].eip7928_item_from(first));
        lemma_says_effects(sorted[j], first);
        assert(says_effects(
            items_in(bytes)[j],
            sorted[j],
            sorted_by_key(sorted[j].storage_items@),
            first,
        ));
    }
}

/// The EIP-7928 form with the indices as they are counts from 0.
pub proof fn law_plain_indices_count_from_zero(block: BlockAccessListEncode)
    ensures
        encode(block.eip7928_item()) == encode(block.eip7928_item_from(0)),
{
}

} // verus!
