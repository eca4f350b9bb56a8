//! What the counts of slots count.
use vstd::prelude::*;

use crate::access_list::AccountAccessListEncode;
use crate::merge::{count_dirty, dirty_total, slot_total, word};

verus! {

/// Where a slot stands: in which account, and where in it.
pub struct SlotPlace {
    pub account: int,
    pub slot: int,
}

/// Where all slots of an access list stand.
pub open spec fn all_slots(accounts: Seq<AccountAccessListEncode>) -> Set<SlotPlace> {
    Set::new(
        |p: SlotPlace|
            0 <= p.account < accounts.len() && 0 <= p.slot
                < accounts[p.account].storage_items@.len(),
    )
}

/// Where the slots stand that are dirty, or are not.
pub open spec fn marked_slots(accounts: Seq<AccountAccessListEncode>, dirty: bool) -> Set<
    SlotPlace,
> {
    Set::new(
        |p: SlotPlace|
            0 <= p.account < accounts.len() && 0 <= p.slot
                < accounts[p.account].storage_items@.len()
                && accounts[p.account].storage_items@[p.slot].dirty == dirty,
    )
}

/// The slots of the accounts, of the last of them only the first `n`.
spec fn slots_up_to(accounts: Seq<AccountAccessListEncode>, n: int) -> Set<SlotPlace> {
    Set::new(
        |p: SlotPlace|
            0 <= p.account < accounts.len() && 0 <= p.slot
                < accounts[p.account].storage_items@.len() && (p.account == accounts.len() - 1
                ==> p.slot < n),
    )
}

spec fn marked_up_to(accounts: Seq<AccountAccessListEncode>, n: int, dirty: bool) -> Set<
    SlotPlace,
> {
    Set::new(
        |p: SlotPlace|
            0 <= p.account < accounts.len() && 0 <= p.slot
                < accounts[p.account].storage_items@.len() && (p.account == accounts.len() - 1
                ==> p.slot < n) && accounts[p.account].storage_items@[p.slot].dirty == dirty,
    )
}

proof fn lemma_slots_up_to(accounts: Seq<AccountAccessListEncode>, n: int)
    requires
        accounts.len() > 0,
        0 <= n <= accounts.last().storage_items@.len(),
    ensures
        slots_up_to(accounts, n).finite(),
        slots_up_to(accounts, n).len() == slot_total(accounts.drop_last()) + n,
    decreases accounts.len(), n,
{
    let here = accounts.len() - 1;
    if n > 0 {
        let p = SlotPlace { account: here, slot: n - 1 };
        lemma_slots_up_to(accounts, n - 1);
        assert(slots_up_to(accounts, n) =~= slots_up_to(accounts, n - 1).insert(p));
    } else {
        let front = accounts.drop_last();
        if front.len() > 0 {
            let m = front.last().storage_items@.len() as int;
            lemma_slots_up_to(front, m);
            assert(slots_up_to(accounts, 0) =~= slots_up_to(front, m));
        } else {
            assert(slots_up_to(accounts, 0) =~= Set::empty());
        }
    }
}

proof fn lemma_marked_up_to(accounts: Seq<AccountAccessListEncode>, n: int, dirty: bool)
    requires
        accounts.len() > 0,
        0 <= n <= accounts.last().storage_items@.len(),
    ensures
        marked_up_to(accounts, n, dirty).finite(),
        marked_up_to(accounts, n, dirty).len() == dirty_total(accounts.drop_last(), dirty)
            + count_dirty(accounts.last().storage_items@.take(n), dirty),
    decreases accounts.len(), n,
{
    reveal(Seq::filter);
    let here = accounts.len() - 1;
    let slots = accounts.last().storage_items@;
    if n > 0 {
        let p = SlotPlace { account: here, slot: n - 1 };
        lemma_marked_up_to(accounts, n - 1, dirty);
        assert(slots.take(n).drop_last() =~= slots.take(n - 1));
        if slots[n - 1].dirty == dirty {
            assert(marked_up_to(accounts, n, dirty) =~= marked_up_to(accounts, n - 1, dirty).insert(
                p,
            ));
        } else {
            assert(marked_up_to(accounts, n, dirty) =~= marked_up_to(accounts, n - 1, dirty));
        }
    } else {
        let front = accounts.drop_last();
        if front.len() > 0 {
            let others = front.last().storage_items@;
            let m = others.len() as int;
            lemma_marked_up_to(front, m, dirty);
            assert(others.take(m) =~= others);
            assert(marked_up_to(accounts, 0, dirty) =~= marked_up_to(front, m, dirty));
        } else {
            assert(marked_up_to(accounts, 0, dirty) =~= Set::empty());
        }
    }
}

/// The total of slots is their number: what a word holds of it, which is all of it
/// for every list that fits in memory.
pub proof fn law_total_is_number_of_slots(accounts: Seq<AccountAccessListEncode>, slots: usize)
    requires
        slots == word(slot_total(accounts)),
    ensures
        all_slots(accounts).finite(),
        slots == all_slots(accounts).len() % (usize::MAX as nat + 1),
{
    if accounts.len() > 0 {
        let n = accounts.last().storage_items@.len() as int;
        lemma_slots_up_to(accounts, n);
        assert(all_slots(accounts) =~= slots_up_to(accounts, n));
    } else {
        assert(all_slots(accounts) =~= Set::empty());
    }
}

/// The total of slots that are dirty, or of those that are not, is their number:
/// what a word holds of it.
pub proof fn law_total_is_number_of_marked_slots(
    accounts: Seq<AccountAccessListEncode>,
    dirty: bool,
    total: usize,
)
    requires
        total == word(dirty_total(accounts, dirty)),
    ensures
        marked_slots(accounts, dirty).finite(),
        total == marked_slots(accounts, dirty).len() % (usize::MAX as nat + 1),
{
    if accounts.len() > 0 {
        let last = accounts.last().storage_items@;
        let n = last.len() as int;
        lemma_marked_up_to(accounts, n, dirty);
        assert(last.take(n) =~= last);
        assert(marked_slots(accounts, dirty) =~= marked_up_to(accounts, n, dirty));
    } else {
        assert(marked_slots(accounts, dirty) =~= Set::empty());
    }
}

/// A word holds the whole of every count that fits in it.
pub proof fn law_words_hold_counts(count: nat)
    requires
        count <= usize::MAX,
    ensures
        word(count) == count,
{
    vstd::arithmetic::div_mod::lemma_small_mod(count, (usize::MAX + 1) as nat);
}

} // verus!
