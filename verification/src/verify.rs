//! Checking BEP-592 payloads, and what a block says of its access list.
use vstd::prelude::*;

use crate::access_list::{flag, AccountAccessListEncode, BlockAccessListEncode, StorageAccessItem};
use crate::hex_text::{
    digit_text, hex_bytes, hex_decode, hex_of, is_hex, law_hex_round_trip,
};
use crate::json::{decimal, json_of, value_as_array, value_get, Json};
use crate::merge::{add_to_word, count_dirty, dirty_total, word};
use crate::rlp_item::{encode, length_limit, lemma_item_fits, lemma_uint_bytes, RlpItem};
use crate::rlp_read::{
    begins_list, bytes_view, items_in, lemma_items_of_list, lemma_number_of, lemma_string_of,
    number_in, string_in,
};
use crate::rlp_read::{rlp_bytes, rlp_is_list, rlp_items, rlp_u32, rlp_u8};

verus! {

/// A slot as a payload lists it.
#[derive(Debug)]
pub struct ListedSlot {
    pub dirty: u8,
    /// Missing if there is no byte string where the key should be.
    pub key: Option<Vec<u8>>,
}

/// An account as a payload lists it.
#[derive(Debug)]
pub struct ListedAccount {
    /// Missing if there is no byte string where the address should be.
    pub address: Option<Vec<u8>>,
    pub slots: Vec<ListedSlot>,
}

/// What a payload was found to be.
#[derive(Debug)]
pub enum PayloadContent {
    /// It is no list of five items.
    WrongLength,
    /// Its version is no number.
    NoVersion,
    /// Its version is not 0.
    OtherVersion(u32),
    /// It lists these accounts.
    Accounts(Vec<ListedAccount>),
}

/// Why a payload cannot be checked.
#[derive(Debug, Clone, Copy, PartialEq, Eq, Structural)]
pub enum PayloadError {
    /// It is no hexadecimal text.
    NotHex,
    /// An account or a slot is not where it should be.
    Malformed,
}

/// The outcome of a check.
#[derive(Debug)]
pub struct PayloadCheck {
    pub valid: bool,
    pub accounts: usize,
    pub reads: usize,
    pub writes: usize,
    pub error: Option<PayloadFault>,
}

/// Why a payload is not valid.
#[derive(Debug, Clone, Copy, PartialEq, Eq, Structural)]
pub enum PayloadFault {
    WrongLength,
    NoVersion,
    OtherVersion(u32),
    AddressLength,
    KeyLength,
}

/// What a slot as a payload lists it holds.
pub struct SlotContent {
    pub dirty: u8,
    pub key: Option<Seq<u8>>,
}

/// What an account as a payload lists it holds.
pub struct AccountContent {
    pub address: Option<Seq<u8>>,
    pub slots: Seq<SlotContent>,
}

/// What a byte vector holds, if there is one.
pub open spec fn optional_view(bytes: Option<Vec<u8>>) -> Option<Seq<u8>> {
    match bytes {
        Some(bytes) => Some(bytes@),
        None => None,
    }
}

impl View for ListedSlot {
    type V = SlotContent;

    open spec fn view(&self) -> SlotContent {
        SlotContent { dirty: self.dirty, key: optional_view(self.key) }
    }
}

impl View for ListedAccount {
    type V = AccountContent;

    open spec fn view(&self) -> AccountContent {
        AccountContent {
            address: optional_view(self.address),
            slots: self.slots@.map_values(|s: ListedSlot| s@),
        }
    }
}

/// The slot that an encoding `[tx_index, dirty, key]` lists. Its flag must be
/// there, its key need not.
pub open spec fn slot_in(bytes: Seq<u8>) -> Option<SlotContent> {
    let items = items_in(bytes);
    if items.len() >= 2 && number_in(items[1], 1) is Some {
        Some(
            SlotContent {
                dirty: number_in(items[1], 1)->Some_0 as u8,
                key: if items.len() >= 3 {
                    string_in(items[2])
                } else {
                    None
                },
            },
        )
    } else {
        None
    }
}

/// The slots that several encodings list, if each of them lists one.
pub open spec fn slots_in(encodings: Seq<Seq<u8>>) -> Option<Seq<SlotContent>>
    decreases encodings.len(),
{
    if encodings.len() == 0 {
        Some(Seq::empty())
    } else {
        match (slots_in(encodings.drop_last()), slot_in(encodings.last())) {
            (Some(before), Some(slot)) => Some(before.push(slot)),
            _ => None,
        }
    }
}

/// The account that an encoding `[tx_index, address, slots]` lists. Its slots
/// must be there.
pub open spec fn account_in(bytes: Seq<u8>) -> Option<AccountContent> {
    let items = items_in(bytes);
    if items.len() >= 3 && begins_list(items[2]) {
        match slots_in(items_in(items[2])) {
            Some(slots) => Some(AccountContent { address: string_in(items[1]), slots }),
            None => None,
        }
    } else {
        None
    }
}

/// The accounts that several encodings list, if each of them lists one.
pub open spec fn accounts_in(encodings: Seq<Seq<u8>>) -> Option<Seq<AccountContent>>
    decreases encodings.len(),
{
    if encodings.len() == 0 {
        Some(Seq::empty())
    } else {
        match (accounts_in(encodings.drop_last()), account_in(encodings.last())) {
            (Some(before), Some(account)) => Some(before.push(account)),
            _ => None,
        }
    }
}

/// What a payload holds.
pub enum Content {
    WrongLength,
    NoVersion,
    OtherVersion(u32),
    Accounts(Seq<AccountContent>),
}

impl View for PayloadContent {
    type V = Content;

    open spec fn view(&self) -> Content {
        match self {
            PayloadContent::WrongLength => Content::WrongLength,
            PayloadContent::NoVersion => Content::NoVersion,
            PayloadContent::OtherVersion(version) => Content::OtherVersion(*version),
            PayloadContent::Accounts(list) => Content::Accounts(
                list@.map_values(|a: ListedAccount| a@),
            ),
        }
    }
}

/// What the encoding `[version, number, hash, sign_data, accounts]` holds.
pub open spec fn content_in(bytes: Seq<u8>) -> Option<Content> {
    let items = items_in(bytes);
    if !begins_list(bytes) || items.len() != 5 {
        Some(Content::WrongLength)
    } else {
        match number_in(items[0], 4) {
            None => Some(Content::NoVersion),
            Some(version) => if version != 0 {
                Some(Content::OtherVersion(version as u32))
            } else if !begins_list(items[4]) {
                None
            } else {
                match accounts_in(items_in(items[4])) {
                    Some(accounts) => Some(Content::Accounts(accounts)),
                    None => None,
                }
            },
        }
    }
}

fn listed_slot(bytes: &Vec<u8>) -> (res: Option<ListedSlot>)
    ensures
        res is Some == slot_in(bytes@) is Some,
        res is Some ==> slot_in(bytes@) == Some(res->Some_0@),
{
    let items = rlp_items(bytes.as_slice());
    assert(bytes_view(items@).len() == items@.len());
    if items.len() < 2 {
        return None;
    }
    assert(bytes_view(items@)[1] == items@[1]@);
    match rlp_u8(items[1].as_slice()) {
        Ok(dirty) => {
            let key = if items.len() >= 3 {
                assert(bytes_view(items@)[2] == items@[2]@);
                rlp_bytes(items[2].as_slice()).ok()
            } else {
                None
            };
            Some(ListedSlot { dirty, key })
        },
        Err(_) => None,
    }
}

spec fn slots_listed(slots: Seq<ListedSlot>) -> Seq<SlotContent> {
    slots.map_values(|s: ListedSlot| s@)
}

proof fn lemma_slots_need_each(encodings: Seq<Seq<u8>>, n: int)
    requires
        0 <= n < encodings.len(),
        slots_in(encodings.take(n + 1)) is None,
    ensures
        slots_in(encodings) is None,
    decreases encodings.len(),
{
    if n + 1 < encodings.len() {
        assert(encodings.drop_last().take(n + 1) =~= encodings.take(n + 1));
        lemma_slots_need_each(encodings.drop_last(), n);
    } else {
        assert(encodings.take(n + 1) =~= encodings);
    }
}

fn listed_slots(encodings: &Vec<Vec<u8>>) -> (res: Option<Vec<ListedSlot>>)
    ensures
        res is Some == slots_in(bytes_view(encodings@)) is Some,
        res is Some ==> slots_in(bytes_view(encodings@)) == Some(slots_listed(res->Some_0@)),
{
    let ghost all = bytes_view(encodings@);
    let mut res: Vec<ListedSlot> = Vec::new();
    let mut n: usize = 0;
    assert(slots_listed(res@) =~= Seq::empty());
    while n < encodings.len()
        invariant
            n <= encodings@.len(),
            all == bytes_view(encodings@),
            slots_in(all.take(n as int)) == Some(slots_listed(res@)),
        decreases encodings@.len() - n,
    {
        let ghost before = res@;
        proof {
            assert(all.take(n + 1).drop_last() =~= all.take(n as int));
            assert(all.take(n + 1).last() == encodings@[n as int]@);
        }
        match listed_slot(&encodings[n]) {
            Some(slot) => {
                res.push(slot);
                assert(slots_listed(res@) =~= slots_listed(before).push(slot@));
            },
            None => {
                proof {
                    lemma_slots_need_each(all, n as int);
                }
                return None;
            },
        }
        n = n + 1;
    }
    assert(all.take(n as int) =~= all);
    Some(res)
}

fn listed_account(bytes: &Vec<u8>) -> (res: Option<ListedAccount>)
    ensures
        res is Some == account_in(bytes@) is Some,
        res is Some ==> account_in(bytes@) == Some(res->Some_0@),
{
    let items = rlp_items(bytes.as_slice());
    assert(bytes_view(items@).len() == items@.len());
    if items.len() < 3 {
        return None;
    }
    assert(bytes_view(items@)[1] == items@[1]@);
    assert(bytes_view(items@)[2] == items@[2]@);
    if !rlp_is_list(items[2].as_slice()) {
        return None;
    }
    let encodings = rlp_items(items[2].as_slice());
    match listed_slots(&encodings) {
        Some(slots) => {
            let address = rlp_bytes(items[1].as_slice()).ok();
            Some(ListedAccount { address, slots })
        },
        None => None,
    }
}

spec fn accounts_listed(accounts: Seq<ListedAccount>) -> Seq<AccountContent> {
    accounts.map_values(|a: ListedAccount| a@)
}

proof fn lemma_accounts_need_each(encodings: Seq<Seq<u8>>, n: int)
    requires
        0 <= n < encodings.len(),
        accounts_in(encodings.take(n + 1)) is None,
    ensures
        accounts_in(encodings) is None,
    decreases encodings.len(),
{
    if n + 1 < encodings.len() {
        assert(encodings.drop_last().take(n + 1) =~= encodings.take(n + 1));
        lemma_accounts_need_each(encodings.drop_last(), n);
    } else {
        assert(encodings.take(n + 1) =~= encodings);
    }
}

fn listed_accounts(encodings: &Vec<Vec<u8>>) -> (res: Option<Vec<ListedAccount>>)
    ensures
        res is Some == accounts_in(bytes_view(encodings@)) is Some,
        res is Some ==> accounts_in(bytes_view(encodings@)) == Some(accounts_listed(res->Some_0@)),
{
    let ghost all = bytes_view(encodings@);
    let mut res: Vec<ListedAccount> = Vec::new();
    let mut n: usize = 0;
    assert(accounts_listed(res@) =~= Seq::empty());
    while n < encodings.len()
        invariant
            n <= encodings@.len(),
            all == bytes_view(encodings@),
            accounts_in(all.take(n as int)) == Some(accounts_listed(res@)),
        decreases encodings@.len() - n,
    {
        let ghost before = res@;
        proof {
            assert(all.take(n + 1).drop_last() =~= all.take(n as int));
            assert(all.take(n + 1).last() == encodings@[n as int]@);
        }
        match listed_account(&encodings[n]) {
            Some(account) => {
                res.push(account);
                assert(accounts_listed(res@) =~= accounts_listed(before).push(account@));
            },
            None => {
                proof {
                    lemma_accounts_need_each(all, n as int);
                }
                return None;
            },
        }
        n = n + 1;
    }
    assert(all.take(n as int) =~= all);
    Some(res)
}

/// Reads a BEP-592 payload.
pub fn payload_content(bytes: &[u8]) -> (res: Result<PayloadContent, PayloadError>)
    ensures
        match content_in(bytes@) {
            Some(content) => res matches Ok(found) && found@ == content,
            None => res matches Err(error) && error == PayloadError::Malformed,
        },
{
    let items = rlp_items(bytes);
    assert(bytes_view(items@).len() == items@.len());
    if !rlp_is_list(bytes) || items.len() != 5 {
        return Ok(PayloadContent::WrongLength);
    }
    assert(bytes_view(items@)[0] == items@[0]@);
    assert(bytes_view(items@)[4] == items@[4]@);
    match rlp_u32(items[0].as_slice()) {
        Err(_) => {
            return Ok(PayloadContent::NoVersion);
        },
        Ok(version) => {
            if version != 0 {
                return Ok(PayloadContent::OtherVersion(version));
            }
        },
    }
    if !rlp_is_list(items[4].as_slice()) {
        return Err(PayloadError::Malformed);
    }
    let encodings = rlp_items(items[4].as_slice());
    match listed_accounts(&encodings) {
        Some(accounts) => Ok(PayloadContent::Accounts(accounts)),
        None => Err(PayloadError::Malformed),
    }
}

/// How many slots are marked as written, which a flag of 1 does, or are not.
pub open spec fn marked(slots: Seq<SlotContent>, written: bool) -> nat {
    slots.filter(|s: SlotContent| (s.dirty == 1) == written).len()
}

/// How many slots of all accounts are marked as written, or are not.
pub open spec fn marked_total(accounts: Seq<AccountContent>, written: bool) -> nat
    decreases accounts.len(),
{
    if accounts.len() == 0 {
        0
    } else {
        marked_total(accounts.drop_last(), written) + marked(accounts.last().slots, written)
    }
}

/// Whether there is a byte string of the given length.
pub open spec fn has_length(bytes: Option<Seq<u8>>, length: nat) -> bool {
    match bytes {
        Some(bytes) => bytes.len() == length,
        None => false,
    }
}

fn has_len(bytes: &Option<Vec<u8>>, length: usize) -> (res: bool)
    ensures
        res == has_length(optional_view(*bytes), length as nat),
{
    match bytes {
        Some(bytes) => bytes.len() == length,
        None => false,
    }
}

/// Whether every key is there and has 32 bytes.
pub open spec fn keys_fit(slots: Seq<SlotContent>) -> bool {
    forall|i: int| 0 <= i < slots.len() ==> has_length((#[trigger] slots[i]).key, 32)
}

/// Whether every address is there and has 20 bytes.
pub open spec fn all_addresses_fit(accounts: Seq<AccountContent>) -> bool {
    forall|i: int| 0 <= i < accounts.len() ==> has_length((#[trigger] accounts[i]).address, 20)
}

/// Whether every key of every account is there and has 32 bytes.
pub open spec fn all_keys_fit(accounts: Seq<AccountContent>) -> bool {
    forall|i: int| 0 <= i < accounts.len() ==> keys_fit((#[trigger] accounts[i]).slots)
}

/// What is wrong with a payload, if anything is: its form, the length of an
/// address, or the length of a key.
pub open spec fn fault_of(content: Content) -> Option<PayloadFault> {
    match content {
        Content::WrongLength => Some(PayloadFault::WrongLength),
        Content::NoVersion => Some(PayloadFault::NoVersion),
        Content::OtherVersion(version) => Some(PayloadFault::OtherVersion(version)),
        Content::Accounts(accounts) => if !all_addresses_fit(accounts) {
            Some(PayloadFault::AddressLength)
        } else if !all_keys_fit(accounts) {
            Some(PayloadFault::KeyLength)
        } else {
            None
        },
    }
}

/// The accounts that a payload lists; none where its form is wrong.
pub open spec fn accounts_of(content: Content) -> Seq<AccountContent> {
    match content {
        Content::Accounts(accounts) => accounts,
        _ => Seq::empty(),
    }
}

/// Whether a check is the one of a payload.
pub open spec fn is_check_of(check: PayloadCheck, content: Content) -> bool {
    let accounts = accounts_of(content);
    &&& check.error == fault_of(content)
    &&& check.valid == (check.error is None)
    &&& check.accounts == accounts.len()
    &&& check.reads == word(marked_total(accounts, false))
    &&& check.writes == word(marked_total(accounts, true))
}

/// Counts the slots that are not marked as written and those that are, and
/// tells whether every key has 32 bytes.
fn check_slots(slots: &Vec<ListedSlot>) -> (res: (usize, usize, bool))
    ensures
        res.0 == marked(slots_listed(slots@), false),
        res.1 == marked(slots_listed(slots@), true),
        res.2 == keys_fit(slots_listed(slots@)),
{
    let ghost all = slots_listed(slots@);
    let ghost read = |s: SlotContent| (s.dirty == 1) == false;
    let ghost written = |s: SlotContent| (s.dirty == 1) == true;
    let mut reads: usize = 0;
    let mut writes: usize = 0;
    let mut fit = true;
    let mut n: usize = 0;
    proof {
        reveal(Seq::filter);
        assert(all.take(0).filter(read).len() == 0);
        assert(all.take(0).filter(written).len() == 0);
    }
    while n < slots.len()
        invariant
            n <= slots@.len(),
            all == slots_listed(slots@),
            read == (|s: SlotContent| (s.dirty == 1) == false),
            written == (|s: SlotContent| (s.dirty == 1) == true),
            reads + writes == n,
            reads == all.take(n as int).filter(read).len(),
            writes == all.take(n as int).filter(written).len(),
            fit == keys_fit(all.take(n as int)),
        decreases slots@.len() - n,
    {
        proof {
            reveal(Seq::filter);
            assert(all.take(n + 1).drop_last() =~= all.take(n as int));
            assert(all.take(n + 1).last() == slots@[n as int]@);
            assert(keys_fit(all.take(n + 1)) == (keys_fit(all.take(n as int))
                && has_length(slots@[n as int]@.key, 32))) by {
                assert(all.take(n + 1)[n as int] == slots@[n as int]@);
                assert forall|i: int| 0 <= i < n implies all.take(n + 1)[i] == all.take(
                    n as int,
                )[i] by {}
            }
        }
        if slots[n].dirty == 1 {
            writes = writes + 1;
        } else {
            reads = reads + 1;
        }
        if !has_len(&slots[n].key, 32) {
            fit = false;
        }
        n = n + 1;
    }
    assert(all.take(n as int) =~= all);
    (reads, writes, fit)
}

proof fn lemma_fit_one_more(accounts: Seq<AccountContent>, account: AccountContent)
    ensures
        all_addresses_fit(accounts.push(account)) == (all_addresses_fit(accounts)
            && has_length(account.address, 20)),
        all_keys_fit(accounts.push(account)) == (all_keys_fit(accounts) && keys_fit(account.slots)),
{
    let longer = accounts.push(account);
    assert(longer[accounts.len() as int] == account);
    assert forall|i: int| 0 <= i < accounts.len() implies longer[i] == accounts[i] by {}
}

/// Judges what was read of a payload.
pub fn check_content(content: &PayloadContent) -> (res: PayloadCheck)
    ensures
        is_check_of(res, content@),
{
    proof {
        vstd::arithmetic::div_mod::lemma_small_mod(0, usize::MAX as nat + 1);
    }
    let accounts = match content {
        PayloadContent::WrongLength => {
            return PayloadCheck::refused(PayloadFault::WrongLength);
        },
        PayloadContent::NoVersion => {
            return PayloadCheck::refused(PayloadFault::NoVersion);
        },
        PayloadContent::OtherVersion(version) => {
            return PayloadCheck::refused(PayloadFault::OtherVersion(*version));
        },
        PayloadContent::Accounts(accounts) => accounts,
    };
    let ghost all = accounts_listed(accounts@);
    let mut reads: usize = 0;
    let mut writes: usize = 0;
    let mut addresses_fit = true;
    let mut keys_fit_all = true;
    let mut n: usize = 0;
    while n < accounts.len()
        invariant
            n <= accounts@.len(),
            all == accounts_listed(accounts@),
            reads == word(marked_total(all.take(n as int), false)),
            writes == word(marked_total(all.take(n as int), true)),
            addresses_fit == all_addresses_fit(all.take(n as int)),
            keys_fit_all == all_keys_fit(all.take(n as int)),
        decreases accounts@.len() - n,
    {
        let ghost before = all.take(n as int);
        proof {
            assert(all.take(n + 1).drop_last() =~= before);
            assert(all.take(n + 1).last() == all[n as int]);
            assert(all[n as int] == accounts@[n as int]@);
            lemma_fit_one_more(before, all[n as int]);
            assert(all.take(n + 1) =~= before.push(all[n as int]));
        }
        let (account_reads, account_writes, fit) = check_slots(&accounts[n].slots);
        reads = add_to_word(reads, account_reads, Ghost(marked_total(before, false)));
        writes = add_to_word(writes, account_writes, Ghost(marked_total(before, true)));
        if !has_len(&accounts[n].address, 20) {
            addresses_fit = false;
        }
        if !fit {
            keys_fit_all = false;
        }
        n = n + 1;
    }
    assert(all.take(n as int) =~= all);
    let error = if !addresses_fit {
        Some(PayloadFault::AddressLength)
    } else if !keys_fit_all {
        Some(PayloadFault::KeyLength)
    } else {
        None
    };
    PayloadCheck {
        valid: addresses_fit && keys_fit_all,
        accounts: accounts.len(),
        reads,
        writes,
        error,
    }
}

impl PayloadCheck {
    /// The check of a payload whose form is wrong.
    fn refused(fault: PayloadFault) -> (res: Self)
        ensures
            res == (PayloadCheck {
                valid: false,
                accounts: 0,
                reads: 0,
                writes: 0,
                error: Some(fault),
            }),
    {
        PayloadCheck { valid: false, accounts: 0, reads: 0, writes: 0, error: Some(fault) }
    }
}

/// Checks a BEP-592 payload that is given as hexadecimal text without prefix:
/// its form, its version, and the lengths of its addresses and keys.
pub fn verify_bal_payload(payload_hex: &str) -> (res: Result<PayloadCheck, PayloadError>)
    ensures
        if payload_hex@.len() % 2 != 0 || !is_hex(payload_hex@) {
            res matches Err(error) && error == PayloadError::NotHex
        } else {
            match content_in(hex_bytes(payload_hex@)) {
                Some(content) => res matches Ok(check) && is_check_of(check, content),
                None => res matches Err(error) && error == PayloadError::Malformed,
            }
        },
{
    match hex_decode(payload_hex) {
        Err(_) => Err(PayloadError::NotHex),
        Ok(bytes) => match payload_content(bytes.as_slice()) {
            Ok(content) => Ok(check_content(&content)),
            Err(error) => Err(error),
        },
    }
}

impl PayloadFault {
    /// The fault in words.
    pub open spec fn text(self) -> Seq<char> {
        match self {
            PayloadFault::WrongLength => "Invalid RLP list length"@,
            PayloadFault::NoVersion => "Invalid version format"@,
            PayloadFault::OtherVersion(version) => "Invalid version: "@ + decimal(version as nat),
            PayloadFault::AddressLength => "Invalid address length"@,
            PayloadFault::KeyLength => "Invalid key length"@,
        }
    }

    /// The fault as a sentence.
    pub fn message(&self) -> (res: String)
        ensures
            res@ == self.text(),
            self matches PayloadFault::OtherVersion(version) ==> res@ == "Invalid version: "@
                + decimal(*version as nat),
    {
        let mut res = String::new();
        match self {
            PayloadFault::WrongLength => {
                res.append("Invalid RLP list length");
            },
            PayloadFault::NoVersion => {
                res.append("Invalid version format");
            },
            PayloadFault::OtherVersion(version) => {
                res.append("Invalid version: ");
                append_decimal(&mut res, *version);
            },
            PayloadFault::AddressLength => {
                res.append("Invalid address length");
            },
            PayloadFault::KeyLength => {
                res.append("Invalid key length");
            },
        }
        assert(res@ =~= self.text());
        res
    }
}

fn append_decimal(text: &mut String, n: u32)
    ensures
        final(text)@ == old(text)@ + decimal(n as nat),
    decreases n,
{
    let ghost before = text@;
    if n >= 10 {
        append_decimal(text, n / 10);
    }
    text.append(digit_text((n % 10) as u64));
    assert(text@ =~= before + decimal(n as nat));
}

/// What the payload of a slot holds of it.
pub open spec fn slot_content(item: StorageAccessItem) -> SlotContent {
    SlotContent { dirty: flag(item.dirty) as u8, key: Some(item.key@) }
}

/// What the payload of an account holds of it.
pub open spec fn account_content(account: AccountAccessListEncode) -> AccountContent {
    AccountContent {
        address: Some(account.address@),
        slots: account.storage_items@.map_values(|i: StorageAccessItem| slot_content(i)),
    }
}

/// What the payload of an access list holds of it.
pub open spec fn block_content(block: BlockAccessListEncode) -> Content {
    if block.version != 0 {
        Content::OtherVersion(block.version)
    } else {
        Content::Accounts(
            block.accounts@.map_values(|a: AccountAccessListEncode| account_content(a)),
        )
    }
}

spec fn slot_contents(items: Seq<StorageAccessItem>) -> Seq<SlotContent> {
    items.map_values(|i: StorageAccessItem| slot_content(i))
}

spec fn account_contents(accounts: Seq<AccountAccessListEncode>) -> Seq<AccountContent> {
    accounts.map_values(|a: AccountAccessListEncode| account_content(a))
}

proof fn lemma_slot_read_back(item: StorageAccessItem)
    requires
        encode(item.bep592_item()).len() < length_limit(),
    ensures
        slot_in(encode(item.bep592_item())) == Some(slot_content(item)),
{
    let parts = item.bep592_item()->List_0;
    let items = items_in(encode(item.bep592_item()));
    lemma_items_of_list(parts);
    assert(items[1] == encode(parts[1]) && items[2] == encode(parts[2]));
    lemma_uint_bytes(flag(item.dirty), 1);
    lemma_number_of(flag(item.dirty), 1);
    lemma_string_of(item.key@);
}

proof fn lemma_slots_read_back(items: Seq<StorageAccessItem>)
    requires
        forall|i: int|
            0 <= i < items.len() ==> encode(
                (#[trigger] items[i]).bep592_item(),
            ).len() < length_limit(),
    ensures
        slots_in(items.map_values(|i: StorageAccessItem| encode(i.bep592_item()))) == Some(
            slot_contents(items),
        ),
    decreases items.len(),
{
    let encodings = items.map_values(|i: StorageAccessItem| encode(i.bep592_item()));
    if items.len() > 0 {
        let front = items.drop_last();
        assert forall|i: int| 0 <= i < front.len() implies encode(
            (#[trigger] front[i]).bep592_item(),
        ).len() < length_limit() by {
            assert(front[i] == items[i]);
        }
        lemma_slots_read_back(front);
        assert(encodings.drop_last() =~= front.map_values(
            |i: StorageAccessItem| encode(i.bep592_item()),
        ));
        assert(items[items.len() - 1] == items.last());
        lemma_slot_read_back(items.last());
        assert(slot_contents(front).push(slot_content(items.last())) =~= slot_contents(items));
    } else {
        assert(slot_contents(items) =~= Seq::empty());
    }
}

proof fn lemma_account_read_back(account: AccountAccessListEncode)
    requires
        encode(account.bep592_item()).len() < length_limit(),
    ensures
        account_in(encode(account.bep592_item())) == Some(account_content(account)),
{
    let parts = account.bep592_item()->List_0;
    let items = items_in(encode(account.bep592_item()));
    lemma_items_of_list(parts);
    assert(items[1] == encode(parts[1]) && items[2] == encode(parts[2]));
    lemma_string_of(account.address@);
    lemma_item_fits(parts, 2);
    let slots = parts[2]->List_0;
    lemma_items_of_list(slots);
    let storage = account.storage_items@;
    assert forall|i: int| 0 <= i < storage.len() implies encode(
        (#[trigger] storage[i]).bep592_item(),
    ).len() < length_limit() by {
        lemma_item_fits(slots, i);
        assert(slots[i] == storage[i].bep592_item());
    }
    lemma_slots_read_back(storage);
    assert(slots.map_values(|i: RlpItem| encode(i)) =~= storage.map_values(
        |i: StorageAccessItem| encode(i.bep592_item()),
    ));
}

proof fn lemma_accounts_read_back(accounts: Seq<AccountAccessListEncode>)
    requires
        forall|i: int|
            0 <= i < accounts.len() ==> encode(
                (#[trigger] accounts[i]).bep592_item(),
            ).len() < length_limit(),
    ensures
        accounts_in(
            accounts.map_values(|a: AccountAccessListEncode| encode(a.bep592_item())),
        ) == Some(account_contents(accounts)),
    decreases accounts.len(),
{
    let encodings = accounts.map_values(|a: AccountAccessListEncode| encode(a.bep592_item()));
    if accounts.len() > 0 {
        let front = accounts.drop_last();
        assert forall|i: int| 0 <= i < front.len() implies encode(
            (#[trigger] front[i]).bep592_item(),
        ).len() < length_limit() by {
            assert(front[i] == accounts[i]);
        }
        lemma_accounts_read_back(front);
        assert(encodings.drop_last() =~= front.map_values(
            |a: AccountAccessListEncode| encode(a.bep592_item()),
        ));
        assert(accounts[accounts.len() - 1] == accounts.last());
        lemma_account_read_back(accounts.last());
        assert(account_contents(front).push(account_content(accounts.last()))
            =~= account_contents(accounts));
    } else {
        assert(account_contents(accounts) =~= Seq::empty());
    }
}

/// What the payload of an access list holds of it is read back from it. A
/// payload of 4 GiB or more is left out: its length fields are cut off, and it
/// is not read to its end.
pub proof fn law_payload_is_read_back(block: BlockAccessListEncode)
    requires
        encode(block.bep592_item()).len() < length_limit(),
    ensures
        content_in(encode(block.bep592_item())) == Some(block_content(block)),
{
    let parts = block.bep592_item()->List_0;
    let items = items_in(encode(block.bep592_item()));
    lemma_items_of_list(parts);
    assert(items[0] == encode(parts[0]) && items[4] == encode(parts[4]));
    lemma_uint_bytes(block.version as nat, 4);
    lemma_number_of(block.version as nat, 4);
    lemma_item_fits(parts, 4);
    let list = parts[4]->List_0;
    lemma_items_of_list(list);
    let accounts = block.accounts@;
    assert forall|i: int| 0 <= i < accounts.len() implies encode(
        (#[trigger] accounts[i]).bep592_item(),
    ).len() < length_limit() by {
        lemma_item_fits(list, i);
        assert(list[i] == accounts[i].bep592_item());
    }
    lemma_accounts_read_back(accounts);
    assert(list.map_values(|i: RlpItem| encode(i)) =~= accounts.map_values(
        |a: AccountAccessListEncode| encode(a.bep592_item()),
    ));
}

/// The payload of an access list of version 0 is valid, and its check counts
/// the accounts and slots of the list.
pub proof fn law_written_payloads_are_valid(block: BlockAccessListEncode, check: PayloadCheck)
    requires
        block.version == 0,
        is_check_of(check, block_content(block)),
    ensures
        check.valid,
        check.error is None,
        check.accounts == block.accounts@.len(),
        check.reads == word(dirty_total(block.accounts@, false)),
        check.writes == word(dirty_total(block.accounts@, true)),
{
    lemma_marked_total(block.accounts@, false);
    lemma_marked_total(block.accounts@, true);
    let accounts = account_contents(block.accounts@);
    assert forall|i: int| 0 <= i < accounts.len() implies has_length(
        (#[trigger] accounts[i]).address,
        20,
    ) && keys_fit(accounts[i].slots) by {
        assert(accounts[i] == account_content(block.accounts@[i]));
    }
}

/// The payload of an access list, written as hexadecimal text, is read back
/// from that text.
pub proof fn law_payload_text_is_read_back(block: BlockAccessListEncode, text: Seq<char>)
    requires
        text == hex_of(encode(block.bep592_item())),
        encode(block.bep592_item()).len() < length_limit(),
    ensures
        text.len() % 2 == 0,
        is_hex(text),
        content_in(hex_bytes(text)) == Some(block_content(block)),
{
    law_hex_round_trip(encode(block.bep592_item()));
    law_payload_is_read_back(block);
}

proof fn lemma_marked(slots: Seq<StorageAccessItem>, written: bool)
    ensures
        marked(slot_contents(slots), written) == count_dirty(slots, written),
    decreases slots.len(),
{
    reveal(Seq::filter);
    if slots.len() > 0 {
        lemma_marked(slots.drop_last(), written);
        assert(slot_contents(slots).drop_last() =~= slot_contents(slots.drop_last()));
        assert(slot_contents(slots).last() == slot_content(slots.last()));
    }
}

proof fn lemma_marked_total(accounts: Seq<AccountAccessListEncode>, written: bool)
    ensures
        marked_total(account_contents(accounts), written) == dirty_total(accounts, written),
    decreases accounts.len(),
{
    if accounts.len() > 0 {
        let contents = account_contents(accounts);
        lemma_marked_total(accounts.drop_last(), written);
        assert(contents.drop_last() =~= account_contents(accounts.drop_last()));
        assert(contents.last() == account_content(accounts.last()));
        lemma_marked(accounts.last().storage_items@, written);
    }
}

/// What a block says of its access list.
#[derive(Debug, Clone, Copy, PartialEq, Eq, Structural)]
pub struct BlockBalStats {
    /// Whether the block has a field `accessList`, whatever it holds.
    pub has_bal: bool,
    /// The number of elements where the field is an array, and otherwise 0.
    pub accounts: usize,
}

/// Reads from a block, as a node returns it, what it says of its access list.
pub fn block_bal_stats(block: &serde_json::Value) -> (res: BlockBalStats)
    ensures
        match json_of(*block).get("accessList"@) {
            None => !res.has_bal && res.accounts == 0,
            Some(Json::Array(items)) => res.has_bal && res.accounts == items.len(),
            Some(_) => res.has_bal && res.accounts == 0,
        },
{
    match value_get(block, "accessList") {
        None => BlockBalStats { has_bal: false, accounts: 0 },
        Some(list) => {
            let accounts: usize = match value_as_array(list) {
                Some(items) => items.len(),
                None => 0,
            };
            BlockBalStats { has_bal: true, accounts }
        },
    }
}

} // verus!
