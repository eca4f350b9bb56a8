//! The access list of a single call.
use vstd::prelude::*;

use crate::access_list::{
    slots_view, AccountAccessListEncode, BlockAccessListEncode, StorageAccessItem,
};
use crate::json::{json_of, names_once, Json};
use crate::merge::{add_to_word, count_slots, dirty_total, word};
use crate::prestate::{accounts_view, diff_accesses, parse_prestate_diff, AccountAccess};
use crate::prestate_laws::{
    accounts_under, is_reported, law_every_listed_account_is_reported,
    law_every_reported_account_is_listed, reports,
};

verus! {

/// Whether the accounts are those of a single call, in the same order.
pub open spec fn are_accounts_of(
    accounts: Seq<AccountAccessListEncode>,
    accesses: Seq<AccountAccess>,
) -> bool {
    &&& accounts.len() == accesses.len()
    &&& forall|i: int|
        0 <= i < accounts.len() ==> {
            &&& (#[trigger] accounts[i]).tx_index == 0
            &&& accounts[i].address@ == accesses[i].address
            &&& slots_view(accounts[i].storage_items@) == accesses[i].slots
        }
}

/// The access list of a block whose only transaction has the given trace, and
/// how many accounts it has, and slots that are only read and that are written.
pub fn build_bal_payload(block_number: u64, block_hash: [u8; 32], result: &serde_json::Value) -> (res:
    (BlockAccessListEncode, usize, usize, usize))
    ensures
        res.0.version == 0,
        res.0.number == block_number,
        res.0.hash == block_hash,
        res.0.sign_data@ == Seq::<u8>::empty(),
        are_accounts_of(res.0.accounts@, diff_accesses(json_of(*result), 0)),
        res.1 == res.0.accounts@.len(),
        res.2 == word(dirty_total(res.0.accounts@, false)),
        res.3 == word(dirty_total(res.0.accounts@, true)),
{
    let found = parse_prestate_diff(result, 0);
    let ghost all = found@;
    let mut list = BlockAccessListEncode::new(block_number, block_hash);
    let mut reads: usize = 0;
    let mut writes: usize = 0;
    proof {
        vstd::arithmetic::div_mod::lemma_small_mod(0, usize::MAX as nat + 1);
    }
    for entry in iter: found
        invariant
            iter.seq() == all,
            list.version == 0,
            list.number == block_number,
            list.hash == block_hash,
            list.sign_data@ == Seq::<u8>::empty(),
            list.accounts@.len() == iter.index(),
            forall|i: int|
                0 <= i < list.accounts@.len() ==> {
                    &&& (#[trigger] list.accounts@[i]).tx_index == 0
                    &&& list.accounts@[i].address == all[i].0
                    &&& list.accounts@[i].storage_items == all[i].1
                },
            reads == word(dirty_total(list.accounts@, false)),
            writes == word(dirty_total(list.accounts@, true)),
    {
        let ghost before = list.accounts@;
        let (address, items) = entry;
        reads = add_to_word(reads, count_slots(&items, false), Ghost(dirty_total(before, false)));
        writes = add_to_word(writes, count_slots(&items, true), Ghost(dirty_total(before, true)));
        let mut account = AccountAccessListEncode::new(0, address);
        account.storage_items = items;
        list.accounts.push(account);
        assert(list.accounts@.drop_last() =~= before);
    }
    proof {
        let accesses = accounts_view(all);
        assert forall|i: int| 0 <= i < list.accounts@.len() implies {
            &&& (#[trigger] list.accounts@[i]).tx_index == 0
            &&& list.accounts@[i].address@ == accesses[i].address
            &&& slots_view(list.accounts@[i].storage_items@) == accesses[i].slots
        } by {}
    }
    let count: usize = list.accounts.len();
    (list, count, reads, writes)
}

/// The accounts of a single call with their accesses.
spec fn entries(accounts: Seq<AccountAccessListEncode>) -> Seq<
    ([u8; 20], Vec<StorageAccessItem>),
> {
    accounts.map_values(|a: AccountAccessListEncode| (a.address, a.storage_items))
}

proof fn lemma_entries(accounts: Seq<AccountAccessListEncode>, accesses: Seq<AccountAccess>)
    requires
        are_accounts_of(accounts, accesses),
    ensures
        accounts_view(entries(accounts)) == accesses,
{
    let view = accounts_view(entries(accounts));
    assert forall|j: int| 0 <= j < view.len() implies view[j] == accesses[j] by {
        assert(accounts[j].address@ == accesses[j].address);
        assert(slots_view(accounts[j].storage_items@) == accesses[j].slots);
    }
    assert(view =~= accesses);
}

/// Every account of the trace of a call in which a slot is listed is in its access
/// list, with the index 0 and with all of its writes and reads.
pub proof fn law_call_lists_every_account(
    accounts: Seq<AccountAccessListEncode>,
    diff: Json,
    name: Seq<char>,
)
    requires
        are_accounts_of(accounts, diff_accesses(diff, 0)),
        is_reported(diff, name),
    ensures
        exists|j: int|
            0 <= j < accounts.len() && (#[trigger] accounts[j]).tx_index == 0 && reports(
                (accounts[j].address, accounts[j].storage_items),
                diff,
                0,
                name,
            ),
{
    let found = entries(accounts);
    lemma_entries(accounts, diff_accesses(diff, 0));
    law_every_listed_account_is_reported(found, diff, 0, name);
    let j = choose|j: int| 0 <= j < found.len() && reports(#[trigger] found[j], diff, 0, name);
    assert(accounts[j].tx_index == 0);
}

/// The access list of a call has accounts of its trace only, each of them once.
pub proof fn law_call_lists_nothing_else(accounts: Seq<AccountAccessListEncode>, diff: Json)
    requires
        are_accounts_of(accounts, diff_accesses(diff, 0)),
        names_once(accounts_under(diff, "pre"@)),
        names_once(accounts_under(diff, "post"@)),
    ensures
        exists|names: Seq<Seq<char>>| #[trigger]
            names.no_duplicates() && names.len() == accounts.len() && forall|j: int|
                0 <= j < accounts.len() ==> is_reported(diff, #[trigger] names[j]) && reports(
                    (accounts[j].address, accounts[j].storage_items),
                    diff,
                    0,
                    names[j],
                ),
{
    let found = entries(accounts);
    lemma_entries(accounts, diff_accesses(diff, 0));
    law_every_reported_account_is_listed(found, diff, 0);
    let names = choose|names: Seq<Seq<char>>| #[trigger]
        names.no_duplicates() && names.len() == found.len() && forall|j: int|
            0 <= j < found.len() ==> is_reported(diff, #[trigger] names[j]) && reports(
                found[j],
                diff,
                0,
                names[j],
            );
    assert forall|j: int| 0 <= j < accounts.len() implies is_reported(diff, #[trigger] names[j])
        && reports((accounts[j].address, accounts[j].storage_items), diff, 0, names[j]) by {
        assert(found[j] == (accounts[j].address, accounts[j].storage_items));
    }
}

} // verus!
