//! What the check of a payload says of its bytes.
use vstd::prelude::*;

use crate::access_list::BlockAccessListEncode;
use crate::count_laws::{law_total_is_number_of_marked_slots, marked_slots};
use crate::hex_text::{hex_bytes, hex_of, is_hex};
use crate::rlp_item::{be_value, encode};
use crate::rlp_read::{begins_list, items_in, number_in, string_in};
use crate::verify::{
    account_in, accounts_in, accounts_of, all_addresses_fit, all_keys_fit, content_in, has_length, is_check_of, keys_fit, law_payload_text_is_read_back,
    law_written_payloads_are_valid, marked, marked_total, slot_in, slots_in, AccountContent,
    Content, ListedAccount, ListedSlot, PayloadCheck, PayloadContent, PayloadFault, SlotContent,
};

verus! {

/// The encodings of the accounts in a payload.
pub open spec fn account_bytes(bytes: Seq<u8>) -> Seq<Seq<u8>> {
    items_in(items_in(bytes)[4])
}

/// The encodings of the slots in the account at `j` of a payload.
pub open spec fn slot_bytes(bytes: Seq<u8>, j: int) -> Seq<Seq<u8>> {
    items_in(items_in(account_bytes(bytes)[j])[2])
}

/// Whether a payload is a list of five items of which the first is the number 0.
pub open spec fn has_form(bytes: Seq<u8>) -> bool {
    &&& begins_list(bytes)
    &&& items_in(bytes).len() == 5
    &&& number_in(items_in(bytes)[0], 4) == Some(0nat)
}

/// Whether there is an account at `j` of a payload: a list of three items or more,
/// of which the third is a list.
pub open spec fn has_account(bytes: Seq<u8>, j: int) -> bool {
    let parts = items_in(account_bytes(bytes)[j]);
    parts.len() >= 3 && begins_list(parts[2])
}

/// Whether there is a slot at `s` of the account at `j` of a payload: a list of two
/// items or more, of which the second is a number of one byte.
pub open spec fn has_slot_at(bytes: Seq<u8>, j: int, s: int) -> bool {
    let parts = items_in(slot_bytes(bytes, j)[s]);
    parts.len() >= 2 && number_in(parts[1], 1) is Some
}

/// Whether a payload can be checked: there are accounts and slots where they
/// should be.
pub open spec fn is_checkable(bytes: Seq<u8>) -> bool {
    &&& begins_list(items_in(bytes)[4])
    &&& forall|j: int| 0 <= j < account_bytes(bytes).len() ==> #[trigger] has_account(bytes, j)
    &&& forall|j: int, s: int|
        0 <= j < account_bytes(bytes).len() && 0 <= s < slot_bytes(bytes, j).len()
            ==> #[trigger] has_slot_at(bytes, j, s)
}

/// Whether the account at `j` of a payload has an address of 20 bytes.
pub open spec fn has_address(bytes: Seq<u8>, j: int) -> bool {
    match string_in(items_in(account_bytes(bytes)[j])[1]) {
        Some(address) => address.len() == 20,
        None => false,
    }
}

/// Whether the slot at `s` of the account at `j` of a payload has a key of 32
/// bytes.
pub open spec fn has_key_at(bytes: Seq<u8>, j: int, s: int) -> bool {
    let parts = items_in(slot_bytes(bytes, j)[s]);
    parts.len() >= 3 && match string_in(parts[2]) {
        Some(key) => key.len() == 32,
        None => false,
    }
}

/// Where the slots stand in a payload whose flag is 1, or is not.
pub open spec fn flagged(bytes: Seq<u8>, written: bool) -> Set<(int, int)> {
    Set::new(
        |p: (int, int)|
            0 <= p.0 < account_bytes(bytes).len() && 0 <= p.1 < slot_bytes(bytes, p.0).len() && (
            number_in(items_in(slot_bytes(bytes, p.0)[p.1])[1], 1) == Some(1nat)) == written,
    )
}

proof fn lemma_slots_in(encodings: Seq<Seq<u8>>)
    ensures
        slots_in(encodings) is Some <==> forall|s: int|
            0 <= s < encodings.len() ==> slot_in(#[trigger] encodings[s]) is Some,
        slots_in(encodings) is Some ==> {
            let slots = slots_in(encodings)->Some_0;
            &&& slots.len() == encodings.len()
            &&& forall|s: int|
                0 <= s < slots.len() ==> slot_in(encodings[s]) == Some(#[trigger] slots[s])
        },
    decreases encodings.len(),
{
    if encodings.len() > 0 {
        let front = encodings.drop_last();
        let last = encodings.len() - 1;
        lemma_slots_in(front);
        assert forall|s: int| 0 <= s < front.len() implies front[s] == encodings[s] by {}
        if slots_in(encodings) is Some {
            assert forall|s: int| 0 <= s < encodings.len() implies slot_in(
                #[trigger] encodings[s],
            ) is Some by {
                if s < last {
                    assert(slot_in(front[s]) is Some);
                }
            }
        }
        if forall|s: int| 0 <= s < encodings.len() ==> slot_in(#[trigger] encodings[s]) is Some {
            assert forall|s: int| 0 <= s < front.len() implies slot_in(#[trigger] front[s]) is Some by {
                assert(slot_in(encodings[s]) is Some);
            }
            assert(slot_in(encodings[last]) is Some);
        }
    }
}

proof fn lemma_accounts_in(encodings: Seq<Seq<u8>>)
    ensures
        accounts_in(encodings) is Some <==> forall|j: int|
            0 <= j < encodings.len() ==> account_in(#[trigger] encodings[j]) is Some,
        accounts_in(encodings) is Some ==> {
            let accounts = accounts_in(encodings)->Some_0;
            &&& accounts.len() == encodings.len()
            &&& forall|j: int|
                0 <= j < accounts.len() ==> account_in(encodings[j]) == Some(#[trigger] accounts[j])
        },
    decreases encodings.len(),
{
    if encodings.len() > 0 {
        let front = encodings.drop_last();
        let last = encodings.len() - 1;
        lemma_accounts_in(front);
        assert forall|s: int| 0 <= s < front.len() implies front[s] == encodings[s] by {}
        if accounts_in(encodings) is Some {
            assert forall|s: int| 0 <= s < encodings.len() implies account_in(
                #[trigger] encodings[s],
            ) is Some by {
                if s < last {
                    assert(account_in(front[s]) is Some);
                }
            }
        }
        if forall|s: int| 0 <= s < encodings.len() ==> account_in(#[trigger] encodings[s]) is Some {
            assert forall|s: int| 0 <= s < front.len() implies account_in(
                #[trigger] front[s],
            ) is Some by {
                assert(account_in(encodings[s]) is Some);
            }
            assert(account_in(encodings[last]) is Some);
        }
    }
}

/// The account at `j` is there exactly if its parts and those of its slots are.
proof fn lemma_account_at(bytes: Seq<u8>, j: int)
    requires
        0 <= j < account_bytes(bytes).len(),
    ensures
        account_in(account_bytes(bytes)[j]) is Some <==> has_account(bytes, j) && forall|s: int|
            0 <= s < slot_bytes(bytes, j).len() ==> #[trigger] has_slot_at(bytes, j, s),
        account_in(account_bytes(bytes)[j]) is Some ==> {
            let account = account_in(account_bytes(bytes)[j])->Some_0;
            &&& account.address == string_in(items_in(account_bytes(bytes)[j])[1])
            &&& account.slots.len() == slot_bytes(bytes, j).len()
            &&& forall|s: int|
                0 <= s < account.slots.len() ==> slot_in(slot_bytes(bytes, j)[s]) == Some(
                    #[trigger] account.slots[s],
                )
        },
{
    let encodings = slot_bytes(bytes, j);
    lemma_slots_in(encodings);
    assert forall|s: int| 0 <= s < encodings.len() implies has_slot_at(bytes, j, s) == slot_in(
        #[trigger] encodings[s],
    ) is Some by {}
    if slots_in(encodings) is Some {
        assert forall|s: int| 0 <= s < encodings.len() implies #[trigger] has_slot_at(bytes, j, s) by {
            assert(slot_in(encodings[s]) is Some);
        }
    }
    if forall|s: int| 0 <= s < encodings.len() ==> #[trigger] has_slot_at(bytes, j, s) {
        assert forall|s: int| 0 <= s < encodings.len() implies slot_in(
            #[trigger] encodings[s],
        ) is Some by {
            assert(has_slot_at(bytes, j, s));
        }
    }
}

/// A payload of the right form can be checked exactly if there are accounts and
/// slots where they should be, and every payload of another form is refused.
pub proof fn law_what_can_be_checked(bytes: Seq<u8>)
    ensures
        content_in(bytes) is Some <==> (has_form(bytes) ==> is_checkable(bytes)),
{
    let encodings = account_bytes(bytes);
    lemma_accounts_in(encodings);
    if has_form(bytes) && begins_list(items_in(bytes)[4]) {
        if accounts_in(encodings) is Some {
            assert forall|j: int| 0 <= j < encodings.len() implies #[trigger] has_account(
                bytes,
                j,
            ) by {
                assert(account_in(encodings[j]) is Some);
                lemma_account_at(bytes, j);
            }
            assert forall|j: int, s: int|
                0 <= j < encodings.len() && 0 <= s < slot_bytes(bytes, j).len() implies #[trigger] has_slot_at(
                bytes,
                j,
                s,
            ) by {
                assert(account_in(encodings[j]) is Some);
                lemma_account_at(bytes, j);
            }
        }
        if is_checkable(bytes) {
            assert forall|j: int| 0 <= j < encodings.len() implies account_in(
                #[trigger] encodings[j],
            ) is Some by {
                assert(has_account(bytes, j));
                lemma_account_at(bytes, j);
            }
        }
    }
}

/// A payload of the wrong form is not valid, and the check says what is wrong: it
/// is no list of five items, its version is no number, or its version is not 0.
/// Nothing is counted then.
pub proof fn law_wrong_forms_are_refused(bytes: Seq<u8>, content: Content, check: PayloadCheck)
    requires
        content_in(bytes) == Some(content),
        is_check_of(check, content),
        !has_form(bytes),
    ensures
        !check.valid,
        check.accounts == 0,
        check.reads == 0,
        check.writes == 0,
        check.error == Some(
            if !begins_list(bytes) || items_in(bytes).len() != 5 {
                PayloadFault::WrongLength
            } else {
                match number_in(items_in(bytes)[0], 4) {
                    Some(version) => PayloadFault::OtherVersion(version as u32),
                    None => PayloadFault::NoVersion,
                }
            },
        ),
{
    vstd::arithmetic::div_mod::lemma_small_mod(0, usize::MAX as nat + 1);
}

proof fn lemma_flagged_up_to(
    accounts: Seq<AccountContent>,
    n: int,
    written: bool,
    places: Set<(int, int)>,
)
    requires
        accounts.len() > 0,
        0 <= n <= accounts.last().slots.len(),
        places == Set::new(
            |p: (int, int)|
                0 <= p.0 < accounts.len() && 0 <= p.1 < accounts[p.0].slots.len() && (p.0
                    == accounts.len() - 1 ==> p.1 < n) && (accounts[p.0].slots[p.1].dirty == 1)
                    == written,
        ),
    ensures
        places.finite(),
        places.len() == marked_total(accounts.drop_last(), written) + marked(
            accounts.last().slots.take(n),
            written,
        ),
    decreases accounts.len(), n,
{
    reveal(Seq::filter);
    let here = accounts.len() - 1;
    let slots = accounts.last().slots;
    if n > 0 {
        let fewer = Set::new(
            |p: (int, int)|
                0 <= p.0 < accounts.len() && 0 <= p.1 < accounts[p.0].slots.len() && (p.0
                    == accounts.len() - 1 ==> p.1 < n - 1) && (accounts[p.0].slots[p.1].dirty == 1)
                    == written,
        );
        lemma_flagged_up_to(accounts, n - 1, written, fewer);
        assert(slots.take(n).drop_last() =~= slots.take(n - 1));
        if (slots[n - 1].dirty == 1) == written {
            assert(places =~= fewer.insert((here, n - 1)));
        } else {
            assert(places =~= fewer);
        }
    } else {
        let front = accounts.drop_last();
        if front.len() > 0 {
            let others = front.last().slots;
            let m = others.len() as int;
            let fewer = Set::new(
                |p: (int, int)|
                    0 <= p.0 < front.len() && 0 <= p.1 < front[p.0].slots.len() && (p.0
                        == front.len() - 1 ==> p.1 < m) && (front[p.0].slots[p.1].dirty == 1)
                        == written,
            );
            lemma_flagged_up_to(front, m, written, fewer);
            assert(others.take(m) =~= others);
            assert(places =~= fewer);
        } else {
            assert(places =~= Set::empty());
        }
    }
}

proof fn lemma_flagged(bytes: Seq<u8>, accounts: Seq<AccountContent>, written: bool)
    requires
        accounts_in(account_bytes(bytes)) == Some(accounts),
    ensures
        flagged(bytes, written).finite(),
        flagged(bytes, written).len() == marked_total(accounts, written),
{
    let encodings = account_bytes(bytes);
    lemma_accounts_in(encodings);
    assert forall|j: int| 0 <= j < accounts.len() implies {
        &&& (#[trigger] accounts[j]).slots.len() == slot_bytes(bytes, j).len()
        &&& forall|s: int|
            0 <= s < accounts[j].slots.len() ==> slot_in(slot_bytes(bytes, j)[s]) == Some(
                #[trigger] accounts[j].slots[s],
            )
    } by {
        lemma_account_at(bytes, j);
    }
    if accounts.len() > 0 {
        let slots = accounts.last().slots;
        let n = slots.len() as int;
        let places = Set::new(
            |p: (int, int)|
                0 <= p.0 < accounts.len() && 0 <= p.1 < accounts[p.0].slots.len() && (p.0
                    == accounts.len() - 1 ==> p.1 < n) && (accounts[p.0].slots[p.1].dirty == 1)
                    == written,
        );
        lemma_flagged_up_to(accounts, n, written, places);
        assert(slots.take(n) =~= slots);
        assert forall|p: (int, int)| places.contains(p) == flagged(bytes, written).contains(p) by {
            if 0 <= p.0 < accounts.len() && 0 <= p.1 < accounts[p.0].slots.len() {
                let slot = accounts[p.0].slots[p.1];
                let part = slot_bytes(bytes, p.0)[p.1];
                assert(slot_in(part) == Some(slot));
                lemma_one_byte(items_in(part)[1]);
            }
        }
        assert(places =~= flagged(bytes, written));
    } else {
        assert(flagged(bytes, written) =~= Set::empty());
    }
}

/// A number of one byte is below 256.
proof fn lemma_one_byte(bytes: Seq<u8>)
    ensures
        number_in(bytes, 1) is Some ==> number_in(bytes, 1)->Some_0 < 256,
{
    reveal_with_fuel(be_value, 3);
}

/// A payload of the right form is valid exactly if every account has an address of
/// 20 bytes and every slot a key of 32 bytes. Its accounts are counted, its slots
/// with the flag 1 as writes and all others as reads.
pub proof fn law_right_forms_are_judged(bytes: Seq<u8>, content: Content, check: PayloadCheck)
    requires
        content_in(bytes) == Some(content),
        is_check_of(check, content),
        has_form(bytes),
    ensures
        check.accounts == account_bytes(bytes).len(),
        flagged(bytes, false).finite(),
        flagged(bytes, true).finite(),
        check.reads == flagged(bytes, false).len() % (usize::MAX as nat + 1),
        check.writes == flagged(bytes, true).len() % (usize::MAX as nat + 1),
        check.valid <==> check.error is None,
        check.error is None || check.error == Some(PayloadFault::AddressLength) || check.error
            == Some(PayloadFault::KeyLength),
        check.error == Some(PayloadFault::AddressLength) <==> exists|j: int|
            0 <= j < account_bytes(bytes).len() && !#[trigger] has_address(bytes, j),
        check.valid <==> (forall|j: int|
            0 <= j < account_bytes(bytes).len() ==> #[trigger] has_address(bytes, j)) && (forall|
            j: int,
            s: int,
        |
            0 <= j < account_bytes(bytes).len() && 0 <= s < slot_bytes(bytes, j).len()
                ==> #[trigger] has_key_at(bytes, j, s)),
{
    let encodings = account_bytes(bytes);
    lemma_accounts_in(encodings);
    let accounts = accounts_of(content);
    assert(accounts_in(encodings) == Some(accounts));
    lemma_flagged(bytes, accounts, false);
    lemma_flagged(bytes, accounts, true);
    assert forall|j: int| 0 <= j < accounts.len() implies #[trigger] has_address(bytes, j)
        == has_length(accounts[j].address, 20) by {
        assert(account_in(encodings[j]) == Some(accounts[j]));
        lemma_account_at(bytes, j);
    }
    assert forall|j: int, s: int|
        0 <= j < accounts.len() && 0 <= s < slot_bytes(bytes, j).len() implies #[trigger] has_key_at(
        bytes,
        j,
        s,
    ) == has_length(accounts[j].slots[s].key, 32) by {
        assert(account_in(encodings[j]) == Some(accounts[j]));
        lemma_account_at(bytes, j);
        assert(slot_in(slot_bytes(bytes, j)[s]) == Some(accounts[j].slots[s]));
    }
    assert forall|j: int| 0 <= j < accounts.len() implies (#[trigger] accounts[j]).slots.len()
        == slot_bytes(bytes, j).len() by {
        assert(account_in(encodings[j]) == Some(accounts[j]));
        lemma_account_at(bytes, j);
    }
    if all_addresses_fit(accounts) {
        assert forall|j: int| 0 <= j < encodings.len() implies #[trigger] has_address(bytes, j) by {
            assert(has_length(accounts[j].address, 20));
        }
        if all_keys_fit(accounts) {
            assert forall|j: int, s: int|
                0 <= j < encodings.len() && 0 <= s < slot_bytes(bytes, j).len() implies #[trigger] has_key_at(
                bytes,
                j,
                s,
            ) by {
                assert(keys_fit(accounts[j].slots));
                assert(has_length(accounts[j].slots[s].key, 32));
            }
        } else {
            let j = choose|j: int|
                0 <= j < accounts.len() && !keys_fit((#[trigger] accounts[j]).slots);
            let slots = accounts[j].slots;
            let s = choose|s: int|
                0 <= s < slots.len() && !has_length((#[trigger] slots[s]).key, 32);
            assert(!has_key_at(bytes, j, s));
        }
    } else {
        let j = choose|j: int|
            0 <= j < accounts.len() && !has_length((#[trigger] accounts[j]).address, 20);
        assert(!has_address(bytes, j));
    }
}

/// The payload of an access list of version 0, as hexadecimal text, is valid, and
/// its check counts the accounts, the slots that are dirty and those that are not.
pub proof fn law_written_text_is_valid(
    block: BlockAccessListEncode,
    text: Seq<char>,
    content: Content,
    check: PayloadCheck,
)
    requires
        block.version == 0,
        encode(block.bep592_item()).len() < 0x1_0000_0000,
        text == hex_of(encode(block.bep592_item())),
        content_in(hex_bytes(text)) == Some(content),
        is_check_of(check, content),
    ensures
        text.len() % 2 == 0,
        is_hex(text),
        check.valid,
        check.error is None,
        check.accounts == block.accounts@.len(),
        check.reads == marked_slots(block.accounts@, false).len() % (usize::MAX as nat + 1),
        check.writes == marked_slots(block.accounts@, true).len() % (usize::MAX as nat + 1),
{
    law_payload_text_is_read_back(block, text);
    law_written_payloads_are_valid(block, check);
    law_total_is_number_of_marked_slots(block.accounts@, false, check.reads);
    law_total_is_number_of_marked_slots(block.accounts@, true, check.writes);
}

/// What is read of a payload is seen as it is: the flag and the key of a slot.
pub proof fn law_listed_slot_is_seen(slot: ListedSlot)
    ensures
        slot@.dirty == slot.dirty,
        match slot.key {
            Some(key) => slot@.key == Some(key@),
            None => slot@.key is None,
        },
{
}

/// What is read of a payload is seen as it is: the address and all slots of an
/// account, in their order.
pub proof fn law_listed_account_is_seen(account: ListedAccount)
    ensures
        match account.address {
            Some(address) => account@.address == Some(address@),
            None => account@.address is None,
        },
        account@.slots.len() == account.slots@.len(),
        forall|s: int|
            0 <= s < account.slots@.len() ==> #[trigger] account@.slots[s] == account.slots@[s]@,
{
}

/// What is read of a payload is seen as it is: what is wrong with its form, or all
/// accounts, in their order.
pub proof fn law_content_is_seen(content: PayloadContent)
    ensures
        match content {
            PayloadContent::WrongLength => content@ == Content::WrongLength,
            PayloadContent::NoVersion => content@ == Content::NoVersion,
            PayloadContent::OtherVersion(version) => content@ == Content::OtherVersion(version),
            PayloadContent::Accounts(accounts) => {
                &&& content@ is Accounts
                &&& content@->Accounts_0.len() == accounts@.len()
                &&& forall|j: int|
                    0 <= j < accounts@.len() ==> #[trigger] content@->Accounts_0[j]
                        == accounts@[j]@
            },
        },
{
}

/// What is read of a payload of the right form are all of its accounts in their
/// order, each with its address and all of its slots in their order, each with its
/// flag and its key.
pub proof fn law_content_is_that_of_the_bytes(bytes: Seq<u8>)
    requires
        has_form(bytes),
        is_checkable(bytes),
    ensures
        content_in(bytes) matches Some(Content::Accounts(accounts)) && {
            &&& accounts.len() == account_bytes(bytes).len()
            &&& forall|j: int|
                0 <= j < accounts.len() ==> is_account_at(#[trigger] accounts[j], bytes, j)
        },
{
    let encodings = account_bytes(bytes);
    law_what_can_be_checked(bytes);
    lemma_accounts_in(encodings);
    let accounts = accounts_in(encodings)->Some_0;
    assert forall|j: int| 0 <= j < accounts.len() implies is_account_at(
        #[trigger] accounts[j],
        bytes,
        j,
    ) by {
        lemma_account_at(bytes, j);
        assert(account_in(encodings[j]) == Some(accounts[j]));
        assert forall|s: int| 0 <= s < accounts[j].slots.len() implies is_slot_at(
            #[trigger] accounts[j].slots[s],
            bytes,
            j,
            s,
        ) by {
            assert(slot_in(slot_bytes(bytes, j)[s]) == Some(accounts[j].slots[s]));
            lemma_one_byte(items_in(slot_bytes(bytes, j)[s])[1]);
        }
    }
}

/// Whether a slot is the one at `s` of the account at `j` of a payload.
pub open spec fn is_slot_at(slot: SlotContent, bytes: Seq<u8>, j: int, s: int) -> bool {
    let parts = items_in(slot_bytes(bytes, j)[s]);
    &&& number_in(parts[1], 1) == Some(slot.dirty as nat)
    &&& slot.key == if parts.len() >= 3 {
        string_in(parts[2])
    } else {
        None
    }
}

/// Whether an account is the one at `j` of a payload.
pub open spec fn is_account_at(account: AccountContent, bytes: Seq<u8>, j: int) -> bool {
    &&& account.address == string_in(items_in(account_bytes(bytes)[j])[1])
    &&& account.slots.len() == slot_bytes(bytes, j).len()
    &&& forall|s: int|
        0 <= s < account.slots.len() ==> is_slot_at(#[trigger] account.slots[s], bytes, j, s)
}

} // verus!
