//! One access list out of the simulations of a block's transactions.
use vstd::prelude::*;

use crate::access_list::{
    slots_view, AccountAccessListEncode, BlockAccessListEncode, SlotAccess, StorageAccessItem,
};
use crate::changes::{AccountChanges, BlockChanges};
use crate::order::{
    has_key, lemma_ascending_insert, lemma_ascending_like, lemma_ascending_update, position,
    strictly_ascending, Keyed,
};
use crate::prestate::{accounts_view, AccountAccess};
use crate::slot_merge::{
    add_accesses, are_merged, are_slot_changes, are_slot_reads, is_slot_merge, listed_slots,
    slot_changes, MergedSlot,
};
use crate::trace::SimulatedTransaction;

verus! {

/// The block on top of which transactions are simulated.
#[derive(Debug, Clone, Copy)]
pub struct HeadContext {
    pub number: u64,
    pub hash: [u8; 32],
}

/// An account while simulations are merged. The slots are in strictly ascending
/// order of their keys.
#[derive(Debug)]
pub struct AccountAccumulator {
    pub tx_index: u32,
    pub address: [u8; 20],
    pub storage_items: Vec<MergedSlot>,
}

impl Keyed for AccountAccumulator {
    open spec fn spec_key(&self) -> Seq<u8> {
        self.address@
    }

    fn key(&self) -> (res: &[u8]) {
        self.address.as_slice()
    }
}

/// An account that a transaction accesses.
pub struct Visit {
    pub tx_index: u32,
    pub account: AccountAccess,
}

/// The accounts that one simulation accesses.
pub open spec fn visits_of(simulation: SimulatedTransaction) -> Seq<Visit> {
    accounts_view(simulation.accounts@).map_values(
        |account: AccountAccess| Visit { tx_index: simulation.tx_index, account },
    )
}

/// The accounts that the simulations access, one after the other.
pub open spec fn visits(simulations: Seq<SimulatedTransaction>) -> Seq<Visit>
    decreases simulations.len(),
{
    if simulations.len() == 0 {
        Seq::empty()
    } else {
        visits(simulations.drop_last()) + visits_of(simulations.last())
    }
}

/// The visits to the account `address`.
pub open spec fn visits_to(all: Seq<Visit>, address: Seq<u8>) -> Seq<Visit> {
    all.filter(|v: Visit| v.account.address == address)
}

/// The accesses to slots in several visits, one after the other.
pub open spec fn slot_accesses(all: Seq<Visit>) -> Seq<SlotAccess>
    decreases all.len(),
{
    if all.len() == 0 {
        Seq::empty()
    } else {
        slot_accesses(all.drop_last()) + all.last().account.slots
    }
}

/// The lowest transaction index among visits.
pub open spec fn earliest(all: Seq<Visit>) -> u32
    recommends
        all.len() > 0,
    decreases all.len(),
{
    if all.len() <= 1 {
        all[0].tx_index
    } else {
        let before = earliest(all.drop_last());
        if all.last().tx_index < before {
            all.last().tx_index
        } else {
            before
        }
    }
}

/// Whether an account has the lowest index of the visits to it, and all
/// accesses to its slots as one.
pub open spec fn is_account_merge(
    tx_index: u32,
    slots: Seq<StorageAccessItem>,
    to_account: Seq<Visit>,
) -> bool {
    &&& to_account.len() > 0
    &&& tx_index == earliest(to_account)
    &&& is_slot_merge(slots, slot_accesses(to_account))
}

impl AccountAccumulator {
    /// Whether the account is made of all visits to it.
    pub open spec fn merges(self, to_account: Seq<Visit>) -> bool {
        &&& to_account.len() > 0
        &&& self.tx_index == earliest(to_account)
        &&& are_merged(self.storage_items@, slot_accesses(to_account))
    }
}

/// Whether `accounts` has each account of `all` once, in ascending order.
pub open spec fn is_merge_in_progress(accounts: Seq<AccountAccumulator>, all: Seq<Visit>) -> bool {
    &&& strictly_ascending(accounts)
    &&& forall|j: int|
        0 <= j < accounts.len() ==> (#[trigger] accounts[j]).merges(
            visits_to(all, accounts[j].address@),
        )
    &&& forall|i: int| 0 <= i < all.len() ==> has_key(accounts, (#[trigger] all[i]).account.address)
}

/// One more visit adds to the visits to its account and to no other.
pub proof fn lemma_visits_push(all: Seq<Visit>, next: Visit, address: Seq<u8>)
    ensures
        visits_to(all.push(next), address) == if next.account.address == address {
            visits_to(all, address).push(next)
        } else {
            visits_to(all, address)
        },
{
    reveal(Seq::filter);
    assert(all.push(next).drop_last() =~= all);
}

proof fn lemma_visits_present(all: Seq<Visit>, address: Seq<u8>)
    ensures
        visits_to(all, address).len() > 0 <==> exists|i: int|
            0 <= i < all.len() && (#[trigger] all[i]).account.address == address,
    decreases all.len(),
{
    if all.len() > 0 {
        let front = all.drop_last();
        let last = all.len() - 1;
        lemma_visits_present(front, address);
        lemma_visits_push(front, all[last], address);
        assert(all =~= front.push(all[last]));
        if exists|i: int| 0 <= i < front.len() && (#[trigger] front[i]).account.address == address {
            let i = choose|i: int|
                0 <= i < front.len() && (#[trigger] front[i]).account.address == address;
            assert(all[i].account.address == address);
        }
        if exists|i: int| 0 <= i < all.len() && (#[trigger] all[i]).account.address == address {
            let i = choose|i: int|
                0 <= i < all.len() && (#[trigger] all[i]).account.address == address;
            if i < last {
                assert(front[i].account.address == address);
            }
        }
    } else {
        reveal(Seq::filter);
    }
}

/// An access to one account leaves the others as they are.
proof fn lemma_other_account(account: AccountAccumulator, all: Seq<Visit>, next: Visit)
    requires
        account.merges(visits_to(all, account.address@)),
        next.account.address != account.address@,
    ensures
        account.merges(visits_to(all.push(next), account.address@)),
{
    lemma_visits_push(all, next, account.address@);
}

/// Adds one visit to an account.
fn add_to_account(
    account: &mut AccountAccumulator,
    tx_index: u32,
    items: &Vec<StorageAccessItem>,
    Ghost(to_account): Ghost<Seq<Visit>>,
)
    requires
        old(account).merges(to_account),
    ensures
        final(account).address == old(account).address,
        final(account).merges(
            to_account.push(
                Visit {
                    tx_index,
                    account: AccountAccess {
                        address: old(account).address@,
                        slots: slots_view(items@),
                    },
                },
            ),
        ),
{
    let ghost next = Visit {
        tx_index,
        account: AccountAccess { address: account.address@, slots: slots_view(items@) },
    };
    assert(to_account.push(next).drop_last() =~= to_account);
    if tx_index < account.tx_index {
        account.tx_index = tx_index;
    }
    add_accesses(&mut account.storage_items, items, Ghost(slot_accesses(to_account)));
}

/// The account of a first visit to it.
fn new_account(tx_index: u32, address: [u8; 20], items: &Vec<StorageAccessItem>) -> (res:
    AccountAccumulator)
    ensures
        res.address == address,
        res.merges(
            seq![
                Visit {
                    tx_index,
                    account: AccountAccess { address: address@, slots: slots_view(items@) },
                },
            ],
        ),
{
    let ghost only = seq![
        Visit {
            tx_index,
            account: AccountAccess { address: address@, slots: slots_view(items@) },
        },
    ];
    let mut slots: Vec<MergedSlot> = Vec::new();
    add_accesses(&mut slots, items, Ghost(Seq::empty()));
    proof {
        assert(only.drop_last() =~= Seq::empty());
        assert(slot_accesses(only.drop_last()) =~= Seq::empty());
        assert(slot_accesses(only) =~= Seq::<SlotAccess>::empty() + slots_view(items@));
    }
    AccountAccumulator { tx_index, address, storage_items: slots }
}

/// Adds one visit to the accounts.
fn add_visit(
    accounts: &mut Vec<AccountAccumulator>,
    tx_index: u32,
    address: [u8; 20],
    items: &Vec<StorageAccessItem>,
    Ghost(all): Ghost<Seq<Visit>>,
)
    requires
        is_merge_in_progress(old(accounts)@, all),
    ensures
        is_merge_in_progress(
            final(accounts)@,
            all.push(
                Visit {
                    tx_index,
                    account: AccountAccess { address: address@, slots: slots_view(items@) },
                },
            ),
        ),
{
    let ghost before = accounts@;
    let ghost next = Visit {
        tx_index,
        account: AccountAccess { address: address@, slots: slots_view(items@) },
    };
    let ghost after = all.push(next);
    let ghost to_account = visits_to(all, address@);
    proof {
        lemma_visits_push(all, next, address@);
    }
    let (found, at) = position(accounts, address.as_slice());
    if found {
        assert(before[at as int].merges(to_account));
        add_to_account(&mut accounts[at], tx_index, items, Ghost(to_account));
        proof {
            let account = accounts@[at as int];
            assert(accounts@ =~= before.update(at as int, account));
            lemma_ascending_update(before, at as int, account);
            assert forall|j: int| 0 <= j < accounts@.len() implies (
            #[trigger] accounts@[j]).merges(visits_to(after, accounts@[j].address@)) by {
                if j != at {
                    assert(accounts@[j] == before[j]);
                    lemma_other_account(before[j], all, next);
                }
            }
        }
    } else {
        let account = new_account(tx_index, address, items);
        accounts.insert(at, account);
        proof {
            lemma_ascending_insert(before, at as int, account);
            lemma_visits_present(all, address@);
            if to_account.len() > 0 {
                let i = choose|i: int|
                    0 <= i < all.len() && (#[trigger] all[i]).account.address == address@;
                assert(has_key(before, all[i].account.address));
            }
            assert(visits_to(after, address@) =~= seq![next]);
            assert forall|j: int| 0 <= j < accounts@.len() implies (
            #[trigger] accounts@[j]).merges(visits_to(after, accounts@[j].address@)) by {
                if j != at {
                    let k = if j < at { j } else { j - 1 };
                    assert(accounts@[j] == before[k]);
                    lemma_other_account(before[k], all, next);
                }
            }
        }
    }
    assert forall|i: int| 0 <= i < after.len() implies has_key(
        accounts@,
        (#[trigger] after[i]).account.address,
    ) by {
        if i < all.len() {
            assert(has_key(before, all[i].account.address));
        }
    }
}

/// Whether `accounts` has each account of `all` once, in ascending order of
/// the addresses, with all visits to it as one.
pub open spec fn is_merge(accounts: Seq<AccountAccessListEncode>, all: Seq<Visit>) -> bool {
    &&& strictly_ascending(accounts)
    &&& forall|j: int|
        0 <= j < accounts.len() ==> is_account_merge(
            (#[trigger] accounts[j]).tx_index,
            accounts[j].storage_items@,
            visits_to(all, accounts[j].address@),
        )
    &&& forall|i: int| 0 <= i < all.len() ==> has_key(accounts, (#[trigger] all[i]).account.address)
}

/// Whether an account has, of all visits to it, the writes to each slot and the
/// keys of the slots that are only read.
pub open spec fn is_account_of_changes(account: AccountChanges, to_account: Seq<Visit>) -> bool {
    &&& to_account.len() > 0
    &&& are_slot_changes(account.changes@, slot_accesses(to_account))
    &&& are_slot_reads(account.reads@, slot_accesses(to_account))
}

/// Whether `accounts` has each account of `all` once, in ascending order of
/// the addresses, with all writes to its slots.
pub open spec fn are_changes(accounts: Seq<AccountChanges>, all: Seq<Visit>) -> bool {
    &&& strictly_ascending(accounts)
    &&& forall|j: int|
        0 <= j < accounts.len() ==> is_account_of_changes(
            #[trigger] accounts[j],
            visits_to(all, accounts[j].address@),
        )
    &&& forall|i: int| 0 <= i < all.len() ==> has_key(accounts, (#[trigger] all[i]).account.address)
}

/// How many of the slots are dirty, or are not.
pub open spec fn count_dirty(slots: Seq<StorageAccessItem>, dirty: bool) -> nat {
    slots.filter(|i: StorageAccessItem| i.dirty == dirty).len()
}

/// The number of slots in all accounts.
pub open spec fn slot_total(accounts: Seq<AccountAccessListEncode>) -> nat
    decreases accounts.len(),
{
    if accounts.len() == 0 {
        0
    } else {
        slot_total(accounts.drop_last()) + accounts.last().storage_items@.len()
    }
}

/// The number of slots in all accounts that are dirty, or are not.
pub open spec fn dirty_total(accounts: Seq<AccountAccessListEncode>, dirty: bool) -> nat
    decreases accounts.len(),
{
    if accounts.len() == 0 {
        0
    } else {
        dirty_total(accounts.drop_last(), dirty) + count_dirty(
            accounts.last().storage_items@,
            dirty,
        )
    }
}

/// What a machine word holds of a count, which is all of it unless the count
/// exceeds the address space.
pub open spec fn word(count: nat) -> nat {
    count % (usize::MAX as nat + 1)
}

/// `total` and `more` together, where the total is what a word holds of it.
pub(crate) fn add_to_word(total: usize, more: usize, Ghost(count): Ghost<nat>) -> (res: usize)
    requires
        total == word(count),
    ensures
        res == word(count + more as nat),
{
    proof {
        let size = usize::MAX as int + 1;
        vstd::arithmetic::div_mod::lemma_add_mod_noop(count as int, more as int, size);
        vstd::arithmetic::div_mod::lemma_small_mod(more as nat, size as nat);
        if total + more < size {
            vstd::arithmetic::div_mod::lemma_small_mod((total + more) as nat, size as nat);
        } else {
            vstd::arithmetic::div_mod::lemma_small_mod((total + more - size) as nat, size as nat);
            vstd::arithmetic::div_mod::lemma_mod_add_multiples_vanish(total + more - size, size);
        }
    }
    total.wrapping_add(more)
}

/// The number of slots that are dirty, or are not.
pub(crate) fn count_slots(slots: &Vec<StorageAccessItem>, dirty: bool) -> (res: usize)
    ensures
        res == count_dirty(slots@, dirty),
{
    let ghost wanted = |i: StorageAccessItem| i.dirty == dirty;
    let mut count: usize = 0;
    let mut n: usize = 0;
    proof {
        reveal(Seq::filter);
        assert(slots@.take(0).filter(wanted).len() == 0);
    }
    while n < slots.len()
        invariant
            n <= slots@.len(),
            count <= n,
            wanted == (|i: StorageAccessItem| i.dirty == dirty),
            count == slots@.take(n as int).filter(wanted).len(),
        decreases slots@.len() - n,
    {
        proof {
            reveal(Seq::filter);
            assert(slots@.take(n + 1).drop_last() =~= slots@.take(n as int));
        }
        if slots[n].dirty == dirty {
            count = count + 1;
        }
        n = n + 1;
    }
    assert(slots@.take(n as int) =~= slots@);
    count
}

/// The merged accounts of all simulations.
fn merge_accounts(simulations: &Vec<SimulatedTransaction>) -> (res: Vec<AccountAccumulator>)
    ensures
        is_merge_in_progress(res@, visits(simulations@)),
{
    let mut merged: Vec<AccountAccumulator> = Vec::new();
    let mut n: usize = 0;
    assert(visits(simulations@.take(0)) =~= Seq::empty());
    while n < simulations.len()
        invariant
            n <= simulations@.len(),
            is_merge_in_progress(merged@, visits(simulations@.take(n as int))),
        decreases simulations@.len() - n,
    {
        let simulation = &simulations[n];
        let ghost before = visits(simulations@.take(n as int));
        let ghost added = visits_of(*simulation);
        let mut k: usize = 0;
        assert(before + added.take(0) =~= before);
        while k < simulation.accounts.len()
            invariant
                k <= simulation.accounts@.len(),
                added == visits_of(*simulation),
                is_merge_in_progress(merged@, before + added.take(k as int)),
            decreases simulation.accounts@.len() - k,
        {
            let entry = &simulation.accounts[k];
            add_visit(
                &mut merged,
                simulation.tx_index,
                entry.0,
                &entry.1,
                Ghost(before + added.take(k as int)),
            );
            assert((before + added.take(k as int)).push(added[k as int]) =~= before + added.take(
                k + 1,
            ));
            k = k + 1;
        }
        proof {
            assert(added.take(k as int) =~= added);
            assert(simulations@.take(n + 1).drop_last() =~= simulations@.take(n as int));
        }
        n = n + 1;
    }
    assert(simulations@.take(n as int) =~= simulations@);
    merged
}

/// Whether an access list is the one of the given head and simulations. Each
/// slot has the index of the first transaction that accessed it.
pub open spec fn is_list_of(
    list: BlockAccessListEncode,
    head: HeadContext,
    simulations: Seq<SimulatedTransaction>,
) -> bool {
    &&& list.version == 0
    &&& list.number == head.number
    &&& list.hash == head.hash
    &&& list.sign_data@ == Seq::<u8>::empty()
    &&& is_merge(list.accounts@, visits(simulations))
}

/// The access list of merged simulations, and how many slots it has, how many
/// that are only read and how many that are written.
#[derive(Debug)]
pub struct MergedLists {
    /// Slots with the first transaction that accessed them, for BEP-592.
    pub accesses: BlockAccessListEncode,
    /// Slots with all writes to them, for EIP-7928.
    pub changes: BlockChanges,
    pub slots: usize,
    pub reads: usize,
    pub writes: usize,
}

/// The access list of merged accounts, with its counts.
fn access_list_of(
    head: HeadContext,
    merged: &Vec<AccountAccumulator>,
    Ghost(all): Ghost<Seq<Visit>>,
) -> (res: (BlockAccessListEncode, usize, usize, usize))
    requires
        is_merge_in_progress(merged@, all),
    ensures
        res.0.version == 0,
        res.0.number == head.number,
        res.0.hash == head.hash,
        res.0.sign_data@ == Seq::<u8>::empty(),
        is_merge(res.0.accounts@, all),
        res.1 == word(slot_total(res.0.accounts@)),
        res.2 == word(dirty_total(res.0.accounts@, false)),
        res.3 == word(dirty_total(res.0.accounts@, true)),
{
    let mut list = BlockAccessListEncode::new(head.number, head.hash);
    let mut total_slots: usize = 0;
    let mut total_reads: usize = 0;
    let mut total_writes: usize = 0;
    proof {
        vstd::arithmetic::div_mod::lemma_small_mod(0, usize::MAX as nat + 1);
    }
    let mut n: usize = 0;
    while n < merged.len()
        invariant
            n <= merged@.len(),
            is_merge_in_progress(merged@, all),
            list.version == 0,
            list.number == head.number,
            list.hash == head.hash,
            list.sign_data@ == Seq::<u8>::empty(),
            list.accounts@.len() == n,
            forall|j: int|
                0 <= j < n ==> (#[trigger] list.accounts@[j]).address == merged@[j].address
                    && is_account_merge(
                    list.accounts@[j].tx_index,
                    list.accounts@[j].storage_items@,
                    visits_to(all, list.accounts@[j].address@),
                ),
            total_slots == word(slot_total(list.accounts@)),
            total_reads == word(dirty_total(list.accounts@, false)),
            total_writes == word(dirty_total(list.accounts@, true)),
        decreases merged@.len() - n,
    {
        let ghost before = list.accounts@;
        let merged_account = &merged[n];
        let ghost own = visits_to(all, merged_account.address@);
        assert(merged@[n as int].merges(own));
        let items = listed_slots(&merged_account.storage_items, Ghost(slot_accesses(own)));
        total_slots = add_to_word(total_slots, items.len(), Ghost(slot_total(before)));
        total_reads =
        add_to_word(total_reads, count_slots(&items, false), Ghost(dirty_total(before, false)));
        total_writes =
        add_to_word(total_writes, count_slots(&items, true), Ghost(dirty_total(before, true)));
        let mut account = AccountAccessListEncode::new(
            merged_account.tx_index,
            merged_account.address,
        );
        account.storage_items = items;
        list.accounts.push(account);
        assert(list.accounts@.drop_last() =~= before);
        n = n + 1;
    }
    proof {
        lemma_ascending_like(merged@, list.accounts@);
    }
    (list, total_slots, total_reads, total_writes)
}

/// The changes of merged accounts.
fn changes_of(merged: Vec<AccountAccumulator>, Ghost(all): Ghost<Seq<Visit>>) -> (res: BlockChanges)
    requires
        is_merge_in_progress(merged@, all),
    ensures
        are_changes(res.accounts@, all),
{
    let ghost whole = merged@;
    let mut accounts: Vec<AccountChanges> = Vec::new();
    for account in iter: merged
        invariant
            iter.seq() == whole,
            is_merge_in_progress(whole, all),
            accounts@.len() == iter.index(),
            forall|j: int|
                0 <= j < accounts@.len() ==> (#[trigger] accounts@[j]).address == whole[j].address
                    && is_account_of_changes(
                    accounts@[j],
                    visits_to(all, accounts@[j].address@),
                ),
    {
        let ghost own = visits_to(all, account.address@);
        assert(whole[iter.index() as int].merges(own));
        let AccountAccumulator { tx_index: _, address, storage_items } = account;
        let (changes, reads) = slot_changes(storage_items, Ghost(slot_accesses(own)));
        accounts.push(AccountChanges { address, changes, reads });
    }
    proof {
        lemma_ascending_like(whole, accounts@);
    }
    BlockChanges { accounts }
}

/// Merges the simulations of a block's transactions into its access list, and
/// counts the slots, those that are only read and those that are written.
pub fn merge_simulations(head: HeadContext, simulations: Vec<SimulatedTransaction>) -> (res: (
    BlockAccessListEncode,
    usize,
    usize,
    usize,
))
    ensures
        is_list_of(res.0, head, simulations@),
        res.1 == word(slot_total(res.0.accounts@)),
        res.2 == word(dirty_total(res.0.accounts@, false)),
        res.3 == word(dirty_total(res.0.accounts@, true)),
{
    let merged = merge_accounts(&simulations);
    access_list_of(head, &merged, Ghost(visits(simulations@)))
}

/// Merges the simulations of a block's transactions into both of its lists.
pub fn merge_lists(head: HeadContext, simulations: Vec<SimulatedTransaction>) -> (res: MergedLists)
    ensures
        is_list_of(res.accesses, head, simulations@),
        are_changes(res.changes.accounts@, visits(simulations@)),
        res.slots == word(slot_total(res.accesses.accounts@)),
        res.reads == word(dirty_total(res.accesses.accounts@, false)),
        res.writes == word(dirty_total(res.accesses.accounts@, true)),
{
    let merged = merge_accounts(&simulations);
    let (accesses, slots, reads, writes) = access_list_of(
        head,
        &merged,
        Ghost(visits(simulations@)),
    );
    let changes = changes_of(merged, Ghost(visits(simulations@)));
    MergedLists { accesses, changes, slots, reads, writes }
}

} // verus!
