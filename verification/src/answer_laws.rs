//! What the payloads that are sent say of the simulations that went into them.
use vstd::prelude::*;

use crate::access_list::BlockAccessListEncode;
use crate::change_laws::{
    law_every_read_is_listed, law_every_write_is_listed, law_listed_write_was_made, lists_write,
};
use crate::changes::BlockChanges;
use crate::count_laws::{
    all_slots, law_total_is_number_of_marked_slots, law_total_is_number_of_slots, marked_slots,
};
use crate::field_laws::{
    is_list_of_items, law_bep592_payload_says_every_field, law_eip7928_changes_say_every_field,
    says_account, says_account_changes, says_changes, says_slot, says_write,
};
use crate::head_run::{is_payload_of, Payload};
use crate::hex_text::{hex_bytes, hex_of, law_hex_round_trip};
use crate::merge::{are_changes, is_list_of, visits, visits_of, HeadContext};
use crate::origin_laws::{
    access_at, earlier, law_every_access_is_listed, law_list_is_of_its_head, lists_access, touches,
    Place,
};
use crate::rlp_item::encode;
use crate::rlp_read::{items_in, number_in, string_in};
use crate::server::{is_answer, GenerateBalResponse};
use crate::trace::SimulatedTransaction;

verus! {

/// The parts of the account at `j` in a BEP-592 payload.
pub open spec fn account_part(bytes: Seq<u8>, j: int) -> Seq<Seq<u8>> {
    items_in(items_in(items_in(bytes)[4])[j])
}

/// The parts of the slot at `s` in the account at `j` of a BEP-592 payload.
pub open spec fn slot_part(bytes: Seq<u8>, j: int, s: int) -> Seq<Seq<u8>> {
    items_in(items_in(account_part(bytes, j)[2])[s])
}

/// Whether the account at `j` of a payload is the one at `address`, and its slot at
/// `s` the one with the given key.
pub open spec fn has_slot_of(
    bytes: Seq<u8>,
    address: Seq<u8>,
    key: Seq<u8>,
    j: int,
    s: int,
) -> bool {
    &&& 0 <= j < items_in(items_in(bytes)[4]).len()
    &&& string_in(account_part(bytes, j)[1]) == Some(address)
    &&& 0 <= s < items_in(account_part(bytes, j)[2]).len()
    &&& string_in(slot_part(bytes, j, s)[2]) == Some(key)
}

/// Every access of every simulation can be read from the BEP-592 payload: its
/// account, its slot with an index that is no higher, and the flag 1 if it is a
/// write. A payload of 4 GiB or more is left out: its length fields are cut off.
pub proof fn law_payload_says_every_access(
    list: BlockAccessListEncode,
    head: HeadContext,
    simulations: Seq<SimulatedTransaction>,
    bytes: Seq<u8>,
    p: Place,
    address: Seq<u8>,
    key: Seq<u8>,
)
    requires
        is_list_of(list, head, simulations),
        bytes == encode(list.bep592_item()),
        bytes.len() < 0x1_0000_0000,
        touches(simulations, p, address, key),
    ensures
        exists|j: int, s: int|
            {
                &&& #[trigger] has_slot_of(bytes, address, key, j, s)
                &&& number_in(slot_part(bytes, j, s)[0], 4) is Some
                &&& number_in(slot_part(bytes, j, s)[0], 4)->Some_0 <= access_at(
                    simulations,
                    p,
                ).tx_index
                &&& access_at(simulations, p).dirty ==> number_in(slot_part(bytes, j, s)[1], 1)
                    == Some(1nat)
            },
{
    law_every_access_is_listed(list, head, simulations, p.simulation, p.account);
    law_bep592_payload_says_every_field(list, bytes);
    let items = simulations[p.simulation].accounts@[p.account].1@;
    let j = choose|j: int|
        {
            &&& 0 <= j < list.accounts@.len()
            &&& (#[trigger] list.accounts@[j]).address@ == address
            &&& list.accounts@[j].tx_index <= simulations[p.simulation].tx_index
            &&& forall|m: int|
                0 <= m < items.len() ==> lists_access(list.accounts@[j], #[trigger] items[m])
        };
    let account = list.accounts@[j];
    let item = items[p.slot];
    assert(lists_access(account, item));
    let s = choose|s: int|
        0 <= s < account.storage_items@.len() && (#[trigger] account.storage_items@[s]).key@
            == item.key@ && account.storage_items@[s].tx_index <= item.tx_index && (item.dirty
            ==> account.storage_items@[s].dirty);
    assert(says_account(items_in(items_in(bytes)[4])[j], account));
    assert(says_slot(items_in(account_part(bytes, j)[2])[s], account.storage_items@[s]));
    assert(has_slot_of(bytes, address, key, j, s));
}

/// A published payload is that of the head on top of which the transactions were
/// simulated, and its numbers are those of its slots.
pub proof fn law_published_payload_is_of_its_head(
    payload: Payload,
    head: HeadContext,
    simulations: Seq<SimulatedTransaction>,
)
    requires
        is_payload_of(payload, head, simulations),
    ensures
        is_list_of(payload.list, head, simulations),
        payload.bytes@ == encode(payload.list.bep592_item()),
        payload.bytes@.len() < 0x1_0000_0000 ==> {
            let items = items_in(payload.bytes@);
            &&& is_list_of_items(payload.bytes@, 5)
            &&& number_in(items[0], 4) == Some(0nat)
            &&& number_in(items[1], 8) == Some(head.number as nat)
            &&& string_in(items[2]) == Some(head.hash@)
            &&& string_in(items[3]) == Some(Seq::<u8>::empty())
            &&& is_list_of_items(items[4], payload.list.accounts@.len())
        },
        payload.slots == all_slots(payload.list.accounts@).len() % (usize::MAX as nat + 1),
        payload.reads == marked_slots(payload.list.accounts@, false).len() % (usize::MAX as nat
            + 1),
        payload.writes == marked_slots(payload.list.accounts@, true).len() % (usize::MAX as nat
            + 1),
{
    let accounts = payload.list.accounts@;
    law_list_is_of_its_head(payload.list, head, simulations);
    law_total_is_number_of_slots(accounts, payload.slots);
    law_total_is_number_of_marked_slots(accounts, false, payload.reads);
    law_total_is_number_of_marked_slots(accounts, true, payload.writes);
    if payload.bytes@.len() < 0x1_0000_0000 {
        law_bep592_payload_says_every_field(payload.list, payload.bytes@);
        assert(payload.list.sign_data@ =~= Seq::<u8>::empty());
    }
}

/// Nothing is visited exactly if no simulation has an account.
pub proof fn law_nothing_is_visited_without_accounts(simulations: Seq<SimulatedTransaction>)
    ensures
        visits(simulations).len() == 0 <==> forall|i: int|
            0 <= i < simulations.len() ==> (#[trigger] simulations[i]).accounts@.len() == 0,
    decreases simulations.len(),
{
    if simulations.len() > 0 {
        let front = simulations.drop_last();
        let last = simulations.len() - 1;
        law_nothing_is_visited_without_accounts(front);
        assert(visits_of(simulations[last]).len() == simulations[last].accounts@.len());
        if forall|i: int|
            0 <= i < simulations.len() ==> (#[trigger] simulations[i]).accounts@.len() == 0 {
            assert forall|i: int| 0 <= i < front.len() implies (
            #[trigger] front[i]).accounts@.len() == 0 by {
                assert(front[i] == simulations[i]);
            }
            assert(simulations[last].accounts@.len() == 0);
        }
        if visits(simulations).len() == 0 {
            assert forall|i: int| 0 <= i < simulations.len() implies (
            #[trigger] simulations[i]).accounts@.len() == 0 by {
                if i < last {
                    assert(front[i] == simulations[i]);
                }
            }
        }
    }
}

/// The bytes that a text with the prefix `0x` stands for.
pub open spec fn bytes_of_text(text: Seq<char>) -> Seq<u8> {
    hex_bytes(text.skip(2))
}

proof fn lemma_bytes_of_text(bytes: Seq<u8>)
    ensures
        bytes_of_text("0x"@ + hex_of(bytes)) == bytes,
        ("0x"@ + hex_of(bytes)).len() == 2 + 2 * bytes.len(),
        ("0x"@ + hex_of(bytes)).take(2) == seq!['0', 'x'],
{
    reveal_strlit("0x");
    let text = "0x"@ + hex_of(bytes);
    assert(text.skip(2) =~= hex_of(bytes));
    assert(text.take(2) =~= seq!['0', 'x']);
    law_hex_round_trip(bytes);
}

/// The texts of an answer are the payloads of the two lists that are made of the
/// simulations: `0x` and two digits for each byte. In the EIP-7928 payload the
/// transactions are counted from 1.
pub proof fn law_answer_texts_are_the_payloads(
    answer: GenerateBalResponse,
    list: BlockAccessListEncode,
    changes: BlockChanges,
    block_number: u64,
    simulations: Seq<SimulatedTransaction>,
)
    requires
        is_answer(answer, list, changes, block_number, simulations),
    ensures
        is_list_of(list, HeadContext { number: block_number, hash: list.hash }, simulations),
        are_changes(changes.accounts@, visits(simulations)),
        answer.bep592_payload@.take(2) == seq!['0', 'x'],
        answer.bep592_payload@.len() == 2 + 2 * encode(list.bep592_item()).len(),
        bytes_of_text(answer.bep592_payload@) == encode(list.bep592_item()),
        answer.eip7928_payload@.take(2) == seq!['0', 'x'],
        answer.eip7928_payload@.len() == 2 + 2 * encode(changes.item_from(1)).len(),
        bytes_of_text(answer.eip7928_payload@) == encode(changes.item_from(1)),
        answer.size_bytes == encode(list.bep592_item()).len(),
{
    lemma_bytes_of_text(encode(list.bep592_item()));
    lemma_bytes_of_text(encode(changes.item_from(1)));
}

/// An answer is about the block that was asked for, with zeros for its hash, and
/// its numbers are those of the payload: its accounts, and its slots that are only
/// read and that are written.
pub proof fn law_answer_is_of_its_block(
    answer: GenerateBalResponse,
    list: BlockAccessListEncode,
    changes: BlockChanges,
    block_number: u64,
    simulations: Seq<SimulatedTransaction>,
)
    requires
        is_answer(answer, list, changes, block_number, simulations),
    ensures
        list.version == 0,
        list.number == block_number,
        list.hash@ == Seq::new(32, |i: int| 0u8),
        list.sign_data@.len() == 0,
        answer.accounts == list.accounts@.len(),
        answer.reads == marked_slots(list.accounts@, false).len() % (usize::MAX as nat + 1),
        answer.writes == marked_slots(list.accounts@, true).len() % (usize::MAX as nat + 1),
        answer.fresh,
{
    let head = HeadContext { number: block_number, hash: list.hash };
    law_list_is_of_its_head(list, head, simulations);
    law_total_is_number_of_marked_slots(list.accounts@, false, answer.reads);
    law_total_is_number_of_marked_slots(list.accounts@, true, answer.writes);
}

/// What the BEP-592 payload of an answer says of the block: version 0, the number
/// that was asked for, zeros for the hash, no signature, and as many accounts as
/// the answer counts. A payload of 4 GiB or more is left out: its length fields are
/// cut off.
pub proof fn law_answer_says_its_block(
    answer: GenerateBalResponse,
    list: BlockAccessListEncode,
    changes: BlockChanges,
    block_number: u64,
    simulations: Seq<SimulatedTransaction>,
)
    requires
        is_answer(answer, list, changes, block_number, simulations),
        answer.size_bytes < 0x1_0000_0000,
    ensures
        ({
            let bytes = bytes_of_text(answer.bep592_payload@);
            let items = items_in(bytes);
            &&& bytes.len() == answer.size_bytes
            &&& is_list_of_items(bytes, 5)
            &&& number_in(items[0], 4) == Some(0nat)
            &&& number_in(items[1], 8) == Some(block_number as nat)
            &&& string_in(items[2]) == Some(Seq::new(32, |i: int| 0u8))
            &&& string_in(items[3]) == Some(Seq::<u8>::empty())
            &&& is_list_of_items(items[4], answer.accounts as nat)
        }),
{
    law_answer_texts_are_the_payloads(answer, list, changes, block_number, simulations);
    law_answer_is_of_its_block(answer, list, changes, block_number, simulations);
    law_bep592_payload_says_every_field(list, encode(list.bep592_item()));
    assert(list.sign_data@ =~= Seq::<u8>::empty());
}

/// Every access of every simulation can be read from the BEP-592 payload of an
/// answer.
pub proof fn law_answer_says_every_access(
    answer: GenerateBalResponse,
    list: BlockAccessListEncode,
    changes: BlockChanges,
    block_number: u64,
    simulations: Seq<SimulatedTransaction>,
    p: Place,
    address: Seq<u8>,
    key: Seq<u8>,
)
    requires
        is_answer(answer, list, changes, block_number, simulations),
        answer.size_bytes < 0x1_0000_0000,
        touches(simulations, p, address, key),
    ensures
        ({
            let bytes = bytes_of_text(answer.bep592_payload@);
            exists|j: int, s: int|
                {
                    &&& #[trigger] has_slot_of(bytes, address, key, j, s)
                    &&& number_in(slot_part(bytes, j, s)[0], 4) is Some
                    &&& number_in(slot_part(bytes, j, s)[0], 4)->Some_0 <= access_at(
                        simulations,
                        p,
                    ).tx_index
                    &&& access_at(simulations, p).dirty ==> number_in(
                        slot_part(bytes, j, s)[1],
                        1,
                    ) == Some(1nat)
                }
        }),
{
    let payload = encode(list.bep592_item());
    let head = HeadContext { number: block_number, hash: list.hash };
    lemma_bytes_of_text(payload);
    law_payload_says_every_access(list, head, simulations, payload, p, address, key);
}

/// The parts of the account at `j` in an EIP-7928 list.
pub open spec fn changes_part(bytes: Seq<u8>, j: int) -> Seq<Seq<u8>> {
    items_in(items_in(bytes)[j])
}

/// The parts of the changed slot at `c` in the account at `j` of an EIP-7928 list.
pub open spec fn change_part(bytes: Seq<u8>, j: int, c: int) -> Seq<Seq<u8>> {
    items_in(items_in(changes_part(bytes, j)[1])[c])
}

/// Whether the account at `j` of an EIP-7928 list is the one at `address`, its
/// changed slot at `c` the one with the given key, and the write at `w` to it one
/// with the given index and value.
pub open spec fn has_write_of(
    bytes: Seq<u8>,
    address: Seq<u8>,
    key: Seq<u8>,
    index: nat,
    value: Seq<u8>,
    j: int,
    c: int,
    w: int,
) -> bool {
    let writes = items_in(change_part(bytes, j, c)[1]);
    &&& 0 <= j < items_in(bytes).len()
    &&& string_in(changes_part(bytes, j)[0]) == Some(address)
    &&& 0 <= c < items_in(changes_part(bytes, j)[1]).len()
    &&& string_in(change_part(bytes, j, c)[0]) == Some(key)
    &&& 0 <= w < writes.len()
    &&& number_in(items_in(writes[w])[0], 2) == Some(index)
    &&& string_in(items_in(writes[w])[1]) == Some(value)
}

/// Every write of every simulation can be read from the EIP-7928 payload of an
/// answer, under its account and its slot, with its value and with 16 bits of its
/// index, counted from 1. Of the writes of one transaction to one slot this holds
/// of the first. A payload of 4 GiB or more is left out: its length fields are cut
/// off.
pub proof fn law_answer_says_every_write(
    answer: GenerateBalResponse,
    list: BlockAccessListEncode,
    changes: BlockChanges,
    block_number: u64,
    simulations: Seq<SimulatedTransaction>,
    p: Place,
    address: Seq<u8>,
    key: Seq<u8>,
)
    requires
        is_answer(answer, list, changes, block_number, simulations),
        bytes_of_text(answer.eip7928_payload@).len() < 0x1_0000_0000,
        touches(simulations, p, address, key),
        access_at(simulations, p).dirty,
        forall|q: Place| #[trigger]
            touches(simulations, q, address, key) && access_at(simulations, q).dirty && access_at(
                simulations,
                q,
            ).tx_index == access_at(simulations, p).tx_index ==> !earlier(q, p),
    ensures
        exists|j: int, c: int, w: int| #[trigger]
            has_write_of(
                bytes_of_text(answer.eip7928_payload@),
                address,
                key,
                (access_at(simulations, p).tx_index as nat + 1) % 0x1_0000,
                access_at(simulations, p).value@,
                j,
                c,
                w,
            ),
{
    let bytes = bytes_of_text(answer.eip7928_payload@);
    let item = access_at(simulations, p);
    lemma_bytes_of_text(encode(changes.item_from(1)));
    law_eip7928_changes_say_every_field(changes, 1, bytes);
    law_every_write_is_listed(changes, simulations, p, address, key);
    let (j, c, w) = choose|j: int, c: int, w: int| #[trigger]
        lists_write(changes, address, key, item.tx_index, j, c, w);
    law_listed_write_was_made(changes, simulations, j, c, w);
    let account = changes.accounts@[j];
    let slot = account.changes@[c];
    let write = slot.writes@[w];
    let q = choose|q: Place|
        {
            &&& #[trigger] touches(simulations, q, address, key)
            &&& access_at(simulations, q).dirty
            &&& access_at(simulations, q).tx_index == write.tx_index
            &&& access_at(simulations, q).value@ == write.value@
            &&& forall|r: Place| #[trigger]
                touches(simulations, r, address, key) && access_at(simulations, r).dirty
                    && access_at(simulations, r).tx_index == write.tx_index ==> !earlier(r, q)
        };
    assert(!earlier(p, q) && !earlier(q, p));
    assert(p == q);
    assert(says_account_changes(items_in(bytes)[j], account, 1));
    assert(says_changes(items_in(changes_part(bytes, j)[1])[c], slot, 1));
    assert(says_write(
        items_in(change_part(bytes, j, c)[1])[w],
        write.tx_index,
        write.value@,
        1,
    ));
    assert(has_write_of(
        bytes,
        address,
        key,
        (item.tx_index as nat + 1) % 0x1_0000,
        item.value@,
        j,
        c,
        w,
    ));
}

/// Whether the account at `j` of an EIP-7928 list is the one at `address`, and the
/// slot at `r` of those that are only read the one with the given key.
pub open spec fn has_read_of(
    bytes: Seq<u8>,
    address: Seq<u8>,
    key: Seq<u8>,
    j: int,
    r: int,
) -> bool {
    &&& 0 <= j < items_in(bytes).len()
    &&& string_in(changes_part(bytes, j)[0]) == Some(address)
    &&& 0 <= r < items_in(changes_part(bytes, j)[2]).len()
    &&& string_in(items_in(changes_part(bytes, j)[2])[r]) == Some(key)
}

/// Every slot that the simulations only read can be read from the EIP-7928 payload
/// of an answer, under its account. A payload of 4 GiB or more is left out: its
/// length fields are cut off.
pub proof fn law_answer_says_every_read(
    answer: GenerateBalResponse,
    list: BlockAccessListEncode,
    changes: BlockChanges,
    block_number: u64,
    simulations: Seq<SimulatedTransaction>,
    p: Place,
    address: Seq<u8>,
    key: Seq<u8>,
)
    requires
        is_answer(answer, list, changes, block_number, simulations),
        bytes_of_text(answer.eip7928_payload@).len() < 0x1_0000_0000,
        touches(simulations, p, address, key),
        forall|q: Place| #[trigger]
            touches(simulations, q, address, key) ==> !access_at(simulations, q).dirty,
    ensures
        exists|j: int, r: int| #[trigger]
            has_read_of(bytes_of_text(answer.eip7928_payload@), address, key, j, r),
{
    let bytes = bytes_of_text(answer.eip7928_payload@);
    lemma_bytes_of_text(encode(changes.item_from(1)));
    law_eip7928_changes_say_every_field(changes, 1, bytes);
    law_every_read_is_listed(changes, simulations, p, address, key);
    let (j, r) = choose|j: int, r: int|
        0 <= j < changes.accounts@.len() && changes.accounts@[j].address@ == address && 0 <= r
            < changes.accounts@[j].reads@.len() && (#[trigger] changes.accounts@[j].reads@[r])@
            == key;
    assert(says_account_changes(items_in(bytes)[j], changes.accounts@[j], 1));
    assert(has_read_of(bytes, address, key, j, r));
}

} // verus!
