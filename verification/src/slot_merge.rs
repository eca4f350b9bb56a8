//! All accesses to the slots of an account, made one per slot.
use vstd::prelude::*;

use crate::access_list::{slots_view, SlotAccess, StorageAccessItem};
use crate::changes::{SlotChanges, SlotWrite};
use crate::order::{
    has_key, lemma_ascending_insert, lemma_ascending_like, lemma_ascending_push,
    lemma_ascending_update, lex_lt, position, strictly_ascending, Keyed,
};

verus! {

/// Whether `tx_index` is the lowest index among the accesses to `key`.
pub open spec fn is_first_access(accesses: Seq<SlotAccess>, key: Seq<u8>, tx_index: u32) -> bool {
    &&& exists|i: int|
        0 <= i < accesses.len() && (#[trigger] accesses[i]).key == key && accesses[i].tx_index
            == tx_index
    &&& forall|i: int|
        0 <= i < accesses.len() && (#[trigger] accesses[i]).key == key ==> tx_index
            <= accesses[i].tx_index
}

/// Whether the access at `i` writes `key`.
pub open spec fn writes_key(accesses: Seq<SlotAccess>, key: Seq<u8>, i: int) -> bool {
    0 <= i < accesses.len() && accesses[i].key == key && accesses[i].dirty
}

/// Whether any of the accesses to `key` is a write.
pub open spec fn is_written(accesses: Seq<SlotAccess>, key: Seq<u8>) -> bool {
    exists|i: int| writes_key(accesses, key, i)
}

/// Whether the access at `i` writes `key`, no later transaction does, and it is
/// the first write in its transaction.
pub open spec fn is_last_write(accesses: Seq<SlotAccess>, key: Seq<u8>, i: int) -> bool {
    &&& writes_key(accesses, key, i)
    &&& forall|k: int| #[trigger]
        writes_key(accesses, key, k) ==> if k < i {
            accesses[k].tx_index < accesses[i].tx_index
        } else {
            accesses[k].tx_index <= accesses[i].tx_index
        }
}

/// Whether the value of the access at `i` is taken over when accesses arrive one
/// after the other: that of the first access to `key`, and that of each access
/// whose transaction comes later than one of those before it.
pub open spec fn is_taken_over(accesses: Seq<SlotAccess>, key: Seq<u8>, i: int) -> bool {
    &&& 0 <= i < accesses.len()
    &&& accesses[i].key == key
    &&& (forall|k: int| 0 <= k < i ==> (#[trigger] accesses[k]).key != key) || (exists|k: int|
        0 <= k < i && (#[trigger] accesses[k]).key == key && accesses[k].tx_index
            < accesses[i].tx_index)
}

/// Whether the value of the access at `i` is the last that is taken over.
pub open spec fn is_last_taken_over(accesses: Seq<SlotAccess>, key: Seq<u8>, i: int) -> bool {
    &&& is_taken_over(accesses, key, i)
    &&& forall|k: int| k > i ==> !#[trigger] is_taken_over(accesses, key, k)
}

/// Whether `value` is the one that all accesses leave in the slot `key`: what
/// the last transaction to write it wrote, or, if none did, the last value that
/// is taken over.
pub open spec fn is_left_value(accesses: Seq<SlotAccess>, key: Seq<u8>, value: Seq<u8>) -> bool {
    if is_written(accesses, key) {
        exists|i: int| #[trigger] is_last_write(accesses, key, i) && accesses[i].value == value
    } else {
        exists|i: int| #[trigger]
            is_last_taken_over(accesses, key, i) && accesses[i].value == value
    }
}

/// Whether a slot says of all accesses to it which transaction came first,
/// whether any wrote the slot, and the value that they leave.
pub open spec fn is_merged_slot(slot: StorageAccessItem, accesses: Seq<SlotAccess>) -> bool {
    &&& is_first_access(accesses, slot.key@, slot.tx_index)
    &&& slot.dirty == is_written(accesses, slot.key@)
    &&& is_left_value(accesses, slot.key@, slot.value@)
}

/// Whether `slots` has each slot of `accesses` once, in ascending order, with
/// all accesses to it as one.
pub open spec fn is_slot_merge(slots: Seq<StorageAccessItem>, accesses: Seq<SlotAccess>) -> bool {
    &&& strictly_ascending(slots)
    &&& forall|j: int| 0 <= j < slots.len() ==> is_merged_slot(#[trigger] slots[j], accesses)
    &&& forall|i: int| 0 <= i < accesses.len() ==> has_key(slots, (#[trigger] accesses[i]).key)
}

/// Whether some write is by the transaction `tx_index`.
pub open spec fn has_write(writes: Seq<SlotWrite>, tx_index: u32) -> bool {
    exists|j: int| 0 <= j < writes.len() && (#[trigger] writes[j]).tx_index == tx_index
}

/// Whether the access at `i` is the first that writes `key` in the transaction
/// `tx_index`.
pub open spec fn is_write_by(
    accesses: Seq<SlotAccess>,
    key: Seq<u8>,
    tx_index: u32,
    i: int,
) -> bool {
    &&& writes_key(accesses, key, i)
    &&& accesses[i].tx_index == tx_index
    &&& forall|k: int|
        k < i && #[trigger] writes_key(accesses, key, k) ==> accesses[k].tx_index != tx_index
}

/// Whether the transactions of writes come in strictly ascending order.
pub open spec fn ascending_writes(writes: Seq<SlotWrite>) -> bool {
    forall|i: int, j: int|
        #![trigger writes[i], writes[j]]
        0 <= i < j < writes.len() ==> writes[i].tx_index < writes[j].tx_index
}

/// Whether `writes` has one write for each transaction that writes `key`, with
/// the value that it writes, in ascending order of the transactions.
pub open spec fn are_writes_to(
    writes: Seq<SlotWrite>,
    accesses: Seq<SlotAccess>,
    key: Seq<u8>,
) -> bool {
    &&& ascending_writes(writes)
    &&& forall|j: int|
        0 <= j < writes.len() ==> is_made_by(#[trigger] writes[j], accesses, key)
    &&& forall|i: int| #[trigger]
        writes_key(accesses, key, i) ==> has_write(writes, accesses[i].tx_index)
}

/// Whether a write to `key` is made by one of the accesses.
pub open spec fn is_made_by(write: SlotWrite, accesses: Seq<SlotAccess>, key: Seq<u8>) -> bool {
    exists|i: int| #[trigger]
        is_write_by(accesses, key, write.tx_index, i) && accesses[i].value == write.value@
}

/// Whether `changes` has each slot that is written once, in ascending order,
/// with all writes to it.
pub open spec fn are_slot_changes(changes: Seq<SlotChanges>, accesses: Seq<SlotAccess>) -> bool {
    &&& strictly_ascending(changes)
    &&& forall|j: int|
        0 <= j < changes.len() ==> (#[trigger] changes[j]).writes@.len() > 0 && are_writes_to(
            changes[j].writes@,
            accesses,
            changes[j].key@,
        )
    &&& forall|key: Seq<u8>| is_written(accesses, key) ==> #[trigger] has_key(changes, key)
}

/// Whether `reads` has the key of each slot that is only read once, in
/// ascending order.
pub open spec fn are_slot_reads(reads: Seq<[u8; 32]>, accesses: Seq<SlotAccess>) -> bool {
    &&& strictly_ascending(reads)
    &&& forall|key: Seq<u8>| #[trigger]
        has_key(reads, key) <==> is_accessed(accesses, key) && !is_written(accesses, key)
}

/// Whether there is an access to `key`.
pub open spec fn is_accessed(accesses: Seq<SlotAccess>, key: Seq<u8>) -> bool {
    exists|i: int| 0 <= i < accesses.len() && (#[trigger] accesses[i]).key == key
}

/// A slot while simulations are merged.
#[derive(Debug)]
pub struct MergedSlot {
    pub key: [u8; 32],
    /// The first transaction that accessed the slot.
    pub first: u32,
    /// The last value that was taken over.
    pub value: [u8; 32],
    /// What each transaction wrote, in ascending order of the transactions.
    pub writes: Vec<SlotWrite>,
}

impl Keyed for MergedSlot {
    open spec fn spec_key(&self) -> Seq<u8> {
        self.key@
    }

    fn key(&self) -> (res: &[u8]) {
        self.key.as_slice()
    }
}

impl MergedSlot {
    /// Whether the slot is made of all accesses to it.
    pub open spec fn merges(self, accesses: Seq<SlotAccess>) -> bool {
        &&& is_first_access(accesses, self.key@, self.first)
        &&& are_writes_to(self.writes@, accesses, self.key@)
        &&& exists|i: int| #[trigger]
            is_last_taken_over(accesses, self.key@, i) && accesses[i].value == self.value@
    }
}

/// Whether `slots` has each slot of `accesses` once, in ascending order.
pub open spec fn are_merged(slots: Seq<MergedSlot>, accesses: Seq<SlotAccess>) -> bool {
    &&& strictly_ascending(slots)
    &&& forall|j: int| 0 <= j < slots.len() ==> (#[trigger] slots[j]).merges(accesses)
    &&& forall|i: int| 0 <= i < accesses.len() ==> has_key(slots, (#[trigger] accesses[i]).key)
}

/// What one more access adds to the writes of `key` and to the values that are
/// taken over.
proof fn lemma_one_more(accesses: Seq<SlotAccess>, next: SlotAccess, key: Seq<u8>)
    ensures
        forall|i: int| #[trigger]
            writes_key(accesses.push(next), key, i) == (writes_key(accesses, key, i) || (i
                == accesses.len() && next.key == key && next.dirty)),
        forall|i: int|
            i != accesses.len() ==> #[trigger] is_taken_over(accesses.push(next), key, i)
                == is_taken_over(accesses, key, i),
        is_taken_over(accesses.push(next), key, accesses.len() as int) ==> next.key == key,
        forall|first: u32| #[trigger]
            is_first_access(accesses, key, first) && next.key == key ==> is_taken_over(
                accesses.push(next),
                key,
                accesses.len() as int,
            ) == (first < next.tx_index),
{
    let after = accesses.push(next);
    let n = accesses.len() as int;
    assert forall|i: int| i != n implies #[trigger] is_taken_over(after, key, i) == is_taken_over(
        accesses,
        key,
        i,
    ) by {
        if 0 <= i < n {
            assert forall|k: int| 0 <= k < i implies after[k] == accesses[k] by {}
            if exists|k: int|
                0 <= k < i && (#[trigger] accesses[k]).key == key && accesses[k].tx_index
                    < accesses[i].tx_index {
                let k = choose|k: int|
                    0 <= k < i && (#[trigger] accesses[k]).key == key && accesses[k].tx_index
                        < accesses[i].tx_index;
                assert(after[k].key == key && after[k].tx_index < after[i].tx_index);
            }
            if exists|k: int|
                0 <= k < i && (#[trigger] after[k]).key == key && after[k].tx_index
                    < after[i].tx_index {
                let k = choose|k: int|
                    0 <= k < i && (#[trigger] after[k]).key == key && after[k].tx_index
                        < after[i].tx_index;
                assert(accesses[k].key == key && accesses[k].tx_index < accesses[i].tx_index);
            }
            if forall|k: int| 0 <= k < i ==> (#[trigger] accesses[k]).key != key {
                assert forall|k: int| 0 <= k < i implies (#[trigger] after[k]).key != key by {
                    assert(accesses[k].key != key);
                }
            }
            if forall|k: int| 0 <= k < i ==> (#[trigger] after[k]).key != key {
                assert forall|k: int| 0 <= k < i implies (#[trigger] accesses[k]).key != key by {
                    assert(after[k].key != key);
                }
            }
        }
    }
    assert forall|first: u32| #[trigger]
        is_first_access(accesses, key, first) && next.key == key implies is_taken_over(after, key, n)
        == (first < next.tx_index) by {
        let f = choose|f: int|
            0 <= f < n && (#[trigger] accesses[f]).key == key && accesses[f].tx_index == first;
        assert(after[f].key == key && after[f].tx_index == first);
        if exists|k: int|
            0 <= k < n && (#[trigger] after[k]).key == key && after[k].tx_index < next.tx_index {
            let k = choose|k: int|
                0 <= k < n && (#[trigger] after[k]).key == key && after[k].tx_index < next.tx_index;
            assert(accesses[k].key == key);
        }
    }
}

/// What is made by one of the accesses stays so when another one follows.
proof fn lemma_made_by_kept(
    write: SlotWrite,
    accesses: Seq<SlotAccess>,
    next: SlotAccess,
    key: Seq<u8>,
)
    requires
        is_made_by(write, accesses, key),
    ensures
        is_made_by(write, accesses.push(next), key),
{
    lemma_one_more(accesses, next, key);
    let i = choose|i: int| #[trigger]
        is_write_by(accesses, key, write.tx_index, i) && accesses[i].value == write.value@;
    assert(is_write_by(accesses.push(next), key, write.tx_index, i));
}

/// The writes to a slot stay as they are when an access follows that does not
/// write it, or that writes it in a transaction that did before.
proof fn lemma_writes_kept(
    writes: Seq<SlotWrite>,
    accesses: Seq<SlotAccess>,
    next: SlotAccess,
    key: Seq<u8>,
)
    requires
        are_writes_to(writes, accesses, key),
        next.key == key && next.dirty ==> has_write(writes, next.tx_index),
    ensures
        are_writes_to(writes, accesses.push(next), key),
{
    let after = accesses.push(next);
    lemma_one_more(accesses, next, key);
    assert forall|j: int| 0 <= j < writes.len() implies is_made_by(
        #[trigger] writes[j],
        after,
        key,
    ) by {
        lemma_made_by_kept(writes[j], accesses, next, key);
    }
    assert forall|i: int| #[trigger] writes_key(after, key, i) implies has_write(
        writes,
        after[i].tx_index,
    ) by {
        if i < accesses.len() {
            assert(writes_key(accesses, key, i));
        }
    }
}

/// An access to one slot leaves the others as they are.
proof fn lemma_other_slot(slot: MergedSlot, accesses: Seq<SlotAccess>, next: SlotAccess)
    requires
        slot.merges(accesses),
        next.key != slot.key@,
    ensures
        slot.merges(accesses.push(next)),
{
    let key = slot.key@;
    let after = accesses.push(next);
    let n = accesses.len() as int;
    lemma_one_more(accesses, next, key);
    lemma_writes_kept(slot.writes@, accesses, next, key);
    assert forall|k: int| 0 <= k < after.len() && (#[trigger] after[k]).key == key implies k < n
        && after[k] == accesses[k] by {}
    let f = choose|f: int|
        0 <= f < n && (#[trigger] accesses[f]).key == key && accesses[f].tx_index == slot.first;
    assert(after[f].key == key && after[f].tx_index == slot.first);
    let i = choose|i: int| #[trigger]
        is_last_taken_over(accesses, key, i) && accesses[i].value == slot.value@;
    assert forall|k: int| k > i implies !#[trigger] is_taken_over(after, key, k) by {
        if k != n {
            assert(!is_taken_over(accesses, key, k));
        }
    }
    assert(is_taken_over(accesses, key, i));
    assert(is_last_taken_over(after, key, i));
}

/// Adds one write to those of a slot.
fn add_write(
    writes: &mut Vec<SlotWrite>,
    item: StorageAccessItem,
    Ghost(accesses): Ghost<Seq<SlotAccess>>,
)
    requires
        item.dirty,
        are_writes_to(old(writes)@, accesses, item.key@),
    ensures
        are_writes_to(final(writes)@, accesses.push(item@), item.key@),
{
    let ghost before = writes@;
    let ghost key = item.key@;
    let ghost after = accesses.push(item@);
    let mut at: usize = writes.len();
    while at > 0 && writes[at - 1].tx_index > item.tx_index
        invariant
            at <= writes@.len(),
            writes@ == before,
            forall|j: int| at <= j < before.len() ==> (#[trigger] before[j]).tx_index > item.tx_index,
        decreases at,
    {
        at = at - 1;
    }
    if at > 0 && writes[at - 1].tx_index == item.tx_index {
        proof {
            assert(before[at - 1].tx_index == item.tx_index);
            lemma_writes_kept(before, accesses, item@, key);
        }
        return ;
    }
    let write = SlotWrite { tx_index: item.tx_index, value: item.value };
    writes.insert(at, write);
    proof {
        let n = accesses.len() as int;
        lemma_one_more(accesses, item@, key);
        assert forall|j: int| 0 <= j < before.len() implies (#[trigger] before[j]).tx_index
            != item.tx_index by {
            if j < at {
                assert(before[j].tx_index <= before[at - 1].tx_index);
            }
        }
        assert forall|j: int| 0 <= j < at implies (#[trigger] before[j]).tx_index < item.tx_index by {
            assert(before[j].tx_index <= before[at - 1].tx_index);
        }
        assert forall|i: int, j: int| #![trigger writes@[i], writes@[j]] 0 <= i < j < writes@.len() implies writes@[i].tx_index
            < writes@[j].tx_index by {
            let k = if i < at { i } else { i - 1 };
            let l = if j < at { j } else { j - 1 };
            if i != at {
                assert(writes@[i] == before[k]);
            }
            if j != at {
                assert(writes@[j] == before[l]);
            }
        }
        assert forall|j: int| 0 <= j < writes@.len() implies is_made_by(
            #[trigger] writes@[j],
            after,
            key,
        ) by {
            if j == at {
                assert forall|k: int| k < n && #[trigger] writes_key(after, key, k) implies after[k].tx_index
                    != item.tx_index by {
                    assert(writes_key(accesses, key, k));
                    assert(has_write(before, accesses[k].tx_index));
                }
                assert(writes_key(after, key, n));
                assert(is_write_by(after, key, write.tx_index, n));
                assert(after[n].value == write.value@);
            } else {
                let k = if j < at { j } else { j - 1 };
                assert(writes@[j] == before[k]);
                lemma_made_by_kept(before[k], accesses, item@, key);
            }
        }
        assert forall|i: int| #[trigger] writes_key(after, key, i) implies has_write(
            writes@,
            after[i].tx_index,
        ) by {
            if i < n {
                assert(writes_key(accesses, key, i));
                let k = choose|k: int|
                    0 <= k < before.len() && (#[trigger] before[k]).tx_index
                        == accesses[i].tx_index;
                let l = if k < at { k } else { k + 1 };
                assert(writes@[l].tx_index == after[i].tx_index);
            } else {
                assert(writes@[at as int].tx_index == item.tx_index);
            }
        }
    }
}

/// Adds one access to a slot.
fn add_to_slot(
    slot: &mut MergedSlot,
    item: StorageAccessItem,
    Ghost(accesses): Ghost<Seq<SlotAccess>>,
)
    requires
        old(slot).merges(accesses),
        item.key@ == old(slot).key@,
    ensures
        final(slot).merges(accesses.push(item@)),
        final(slot).key == old(slot).key,
{
    let ghost before = *slot;
    let ghost key = item.key@;
    let ghost after = accesses.push(item@);
    let ghost n = accesses.len() as int;
    let ghost mut taken = choose|i: int| #[trigger]
        is_last_taken_over(accesses, key, i) && accesses[i].value == before.value@;
    proof {
        lemma_one_more(accesses, item@, key);
        assert(is_first_access(accesses, key, before.first));
    }
    if item.dirty {
        add_write(&mut slot.writes, item, Ghost(accesses));
    } else {
        proof {
            lemma_writes_kept(slot.writes@, accesses, item@, key);
        }
    }
    if item.tx_index > slot.first {
        slot.value = item.value;
        proof {
            taken = n;
        }
    } else {
        assert forall|k: int| k > taken implies !#[trigger] is_taken_over(after, key, k) by {
            if k != n {
                assert(!is_taken_over(accesses, key, k));
            }
        }
        assert(is_taken_over(accesses, key, taken));
    }
    if item.tx_index < slot.first {
        slot.first = item.tx_index;
    }
    proof {
        let f = choose|f: int|
            0 <= f < n && (#[trigger] accesses[f]).key == key && accesses[f].tx_index
                == before.first;
        assert(after[f].key == key && after[f].tx_index == before.first);
        assert(after[n].key == key && after[n].tx_index == item.tx_index);
        assert forall|k: int| 0 <= k < after.len() && (#[trigger] after[k]).key == key implies slot.first
            <= after[k].tx_index by {
            if k < n {
                assert(accesses[k].key == key);
            }
        }
        assert(is_first_access(after, key, slot.first));
        assert(is_last_taken_over(after, key, taken) && after[taken].value == slot.value@);
    }
}

/// The slot of a first access to it.
fn new_slot(item: StorageAccessItem, Ghost(accesses): Ghost<Seq<SlotAccess>>) -> (res: MergedSlot)
    requires
        !is_accessed(accesses, item.key@),
    ensures
        res.merges(accesses.push(item@)),
        res.key == item.key,
{
    let ghost key = item.key@;
    let ghost after = accesses.push(item@);
    let ghost n = accesses.len() as int;
    let mut writes: Vec<SlotWrite> = Vec::new();
    proof {
        assert forall|i: int| !#[trigger] writes_key(accesses, key, i) by {
            if writes_key(accesses, key, i) {
                assert(accesses[i].key == key);
            }
        }
        assert(are_writes_to(writes@, accesses, key));
        lemma_one_more(accesses, item@, key);
    }
    if item.dirty {
        add_write(&mut writes, item, Ghost(accesses));
    } else {
        proof {
            lemma_writes_kept(writes@, accesses, item@, key);
        }
    }
    proof {
        assert forall|k: int| 0 <= k < n implies (#[trigger] after[k]).key != key by {
            assert(accesses[k].key != key);
        }
        assert(after[n].key == key);
        assert(is_taken_over(after, key, n));
        assert(is_last_taken_over(after, key, n));
        assert(is_first_access(after, key, item.tx_index));
    }
    MergedSlot { key: item.key, first: item.tx_index, value: item.value, writes }
}

/// Adds one access to the slots of an account.
fn add_access(
    slots: &mut Vec<MergedSlot>,
    item: StorageAccessItem,
    Ghost(accesses): Ghost<Seq<SlotAccess>>,
)
    requires
        are_merged(old(slots)@, accesses),
    ensures
        are_merged(final(slots)@, accesses.push(item@)),
{
    let ghost before = slots@;
    let ghost after = accesses.push(item@);
    let (found, at) = position(slots, item.key.as_slice());
    if found {
        add_to_slot(&mut slots[at], item, Ghost(accesses));
        proof {
            let slot = slots@[at as int];
            assert(slots@ =~= before.update(at as int, slot));
            lemma_ascending_update(before, at as int, slot);
            assert forall|j: int| 0 <= j < slots@.len() implies (#[trigger] slots@[j]).merges(after) by {
                if j != at {
                    assert(slots@[j] == before[j]);
                    lemma_other_slot(before[j], accesses, item@);
                }
            }
        }
    } else {
        proof {
            assert forall|i: int| 0 <= i < accesses.len() implies (#[trigger] accesses[i]).key
                != item@.key by {
                assert(has_key(before, accesses[i].key));
            }
        }
        let slot = new_slot(item, Ghost(accesses));
        slots.insert(at, slot);
        proof {
            lemma_ascending_insert(before, at as int, slot);
            assert forall|j: int| 0 <= j < slots@.len() implies (#[trigger] slots@[j]).merges(after) by {
                if j != at {
                    let k = if j < at { j } else { j - 1 };
                    assert(slots@[j] == before[k]);
                    assert(before[k].merges(accesses));
                    lemma_other_slot(before[k], accesses, item@);
                }
            }
        }
    }
    assert forall|i: int| 0 <= i < after.len() implies has_key(slots@, (#[trigger] after[i]).key) by {
        if i < accesses.len() {
            assert(has_key(before, accesses[i].key));
        }
    }
}

/// Adds several accesses to the slots of an account.
pub(crate) fn add_accesses(
    slots: &mut Vec<MergedSlot>,
    items: &Vec<StorageAccessItem>,
    Ghost(accesses): Ghost<Seq<SlotAccess>>,
)
    requires
        are_merged(old(slots)@, accesses),
    ensures
        are_merged(final(slots)@, accesses + slots_view(items@)),
{
    let mut n: usize = 0;
    let ghost added = slots_view(items@);
    assert(accesses + added.take(0) =~= accesses);
    while n < items.len()
        invariant
            n <= items@.len(),
            added == slots_view(items@),
            are_merged(slots@, accesses + added.take(n as int)),
        decreases items@.len() - n,
    {
        add_access(slots, items[n], Ghost(accesses + added.take(n as int)));
        assert((accesses + added.take(n as int)).push(items@[n as int]@) =~= accesses + added.take(
            n + 1,
        ));
        n = n + 1;
    }
    assert(added.take(n as int) =~= added);
}

/// A slot is written exactly if there are writes to it, and the last of them is
/// the last write.
pub proof fn lemma_last_of_writes(
    writes: Seq<SlotWrite>,
    accesses: Seq<SlotAccess>,
    key: Seq<u8>,
)
    requires
        are_writes_to(writes, accesses, key),
    ensures
        is_written(accesses, key) == (writes.len() > 0),
        writes.len() > 0 ==> exists|i: int| #[trigger]
            is_last_write(accesses, key, i) && accesses[i].value == writes.last().value@,
{
    if is_written(accesses, key) {
        let i = choose|i: int| writes_key(accesses, key, i);
        assert(has_write(writes, accesses[i].tx_index));
    }
    if writes.len() > 0 {
        let last = writes[writes.len() - 1];
        assert(is_made_by(last, accesses, key));
        let i = choose|i: int| #[trigger]
            is_write_by(accesses, key, last.tx_index, i) && accesses[i].value == last.value@;
        assert forall|k: int| #[trigger] writes_key(accesses, key, k) implies if k < i {
            accesses[k].tx_index < accesses[i].tx_index
        } else {
            accesses[k].tx_index <= accesses[i].tx_index
        } by {
            assert(has_write(writes, accesses[k].tx_index));
            let j = choose|j: int|
                0 <= j < writes.len() && (#[trigger] writes[j]).tx_index == accesses[k].tx_index;
            if j < writes.len() - 1 {
                assert(writes[j].tx_index < last.tx_index);
            }
        }
        assert(is_last_write(accesses, key, i));
    }
}

/// A merged slot as it is listed with the first transaction that accessed it.
fn listed_slot(slot: &MergedSlot, Ghost(accesses): Ghost<Seq<SlotAccess>>) -> (res:
    StorageAccessItem)
    requires
        slot.merges(accesses),
    ensures
        is_merged_slot(res, accesses),
        res.key == slot.key,
{
    proof {
        lemma_last_of_writes(slot.writes@, accesses, slot.key@);
    }
    let count: usize = slot.writes.len();
    let value = if count > 0 {
        slot.writes[count - 1].value
    } else {
        slot.value
    };
    StorageAccessItem { tx_index: slot.first, dirty: count > 0, key: slot.key, value }
}

/// The merged slots, each with the first transaction that accessed it.
pub(crate) fn listed_slots(slots: &Vec<MergedSlot>, Ghost(accesses): Ghost<Seq<SlotAccess>>) -> (res:
    Vec<StorageAccessItem>)
    requires
        are_merged(slots@, accesses),
    ensures
        is_slot_merge(res@, accesses),
{
    let mut res: Vec<StorageAccessItem> = Vec::new();
    let mut n: usize = 0;
    while n < slots.len()
        invariant
            n <= slots@.len(),
            res@.len() == n,
            are_merged(slots@, accesses),
            forall|j: int|
                0 <= j < n ==> (#[trigger] res@[j]).spec_key() == slots@[j].spec_key()
                    && is_merged_slot(res@[j], accesses),
        decreases slots@.len() - n,
    {
        assert(slots@[n as int].merges(accesses));
        res.push(listed_slot(&slots[n], Ghost(accesses)));
        n = n + 1;
    }
    proof {
        lemma_ascending_like(slots@, res@);
    }
    res
}

/// Parts the merged slots into those that are written, with all writes to them,
/// and the keys of those that are only read.
pub(crate) fn slot_changes(slots: Vec<MergedSlot>, Ghost(accesses): Ghost<Seq<SlotAccess>>) -> (res: (
    Vec<SlotChanges>,
    Vec<[u8; 32]>,
))
    requires
        are_merged(slots@, accesses),
    ensures
        are_slot_changes(res.0@, accesses),
        are_slot_reads(res.1@, accesses),
{
    let ghost all = slots@;
    let mut changes: Vec<SlotChanges> = Vec::new();
    let mut reads: Vec<[u8; 32]> = Vec::new();
    for slot in iter: slots
        invariant
            iter.seq() == all,
            are_merged(all, accesses),
            iter.index() <= all.len(),
            strictly_ascending(changes@),
            strictly_ascending(reads@),
            forall|j: int|
                0 <= j < changes@.len() ==> (#[trigger] changes@[j]).writes@.len() > 0
                    && are_writes_to(changes@[j].writes@, accesses, changes@[j].key@),
            forall|key: Seq<u8>| #[trigger]
                has_key(changes@, key) == (has_key(all.take(iter.index() as int), key)
                    && is_written(accesses, key)),
            forall|key: Seq<u8>| #[trigger]
                has_key(reads@, key) == (has_key(all.take(iter.index() as int), key)
                    && !is_written(accesses, key)),
    {
        let ghost done = all.take(iter.index() as int);
        let ghost changes_before = changes@;
        let ghost reads_before = reads@;
        let ghost key = slot.key@;
        proof {
            assert(all[iter.index() as int].merges(accesses));
            lemma_last_of_writes(slot.writes@, accesses, key);
            assert(all.take(iter.index() + 1) =~= done.push(slot));
            assert forall|i: int| 0 <= i < done.len() implies lex_lt(
                (#[trigger] done[i]).spec_key(),
                key,
            ) by {
                assert(lex_lt(all[i].spec_key(), all[iter.index() as int].spec_key()));
            }
            assert forall|i: int, j: int| #![trigger done[i], done[j]] 0 <= i < j < done.len() implies lex_lt(
                done[i].spec_key(),
                done[j].spec_key(),
            ) by {
                assert(lex_lt(all[i].spec_key(), all[j].spec_key()));
            }
            lemma_ascending_push(done, slot);
        }
        let MergedSlot { key: slot_key, first: _, value: _, writes } = slot;
        if writes.len() > 0 {
            let change = SlotChanges { key: slot_key, writes };
            proof {
                assert forall|i: int| 0 <= i < changes_before.len() implies lex_lt(
                    (#[trigger] changes_before[i]).spec_key(),
                    key,
                ) by {
                    lemma_key_below(changes_before, done, i, key);
                }
                lemma_ascending_push(changes_before, change);
            }
            changes.push(change);
        } else {
            proof {
                assert forall|i: int| 0 <= i < reads_before.len() implies lex_lt(
                    (#[trigger] reads_before[i]).spec_key(),
                    key,
                ) by {
                    lemma_key_below(reads_before, done, i, key);
                }
                lemma_ascending_push(reads_before, slot_key);
            }
            reads.push(slot_key);
        }
    }
    proof {
        assert(all.take(all.len() as int) =~= all);
        assert forall|key: Seq<u8>| #[trigger] has_key(all, key) == is_accessed(accesses, key) by {
            if has_key(all, key) {
                let j = choose|j: int| 0 <= j < all.len() && (#[trigger] all[j]).spec_key() == key;
                assert(all[j].merges(accesses));
            }
        }
        assert forall|key: Seq<u8>| is_written(accesses, key) implies #[trigger] has_key(
            changes@,
            key,
        ) by {
            let i = choose|i: int| writes_key(accesses, key, i);
            assert(accesses[i].key == key);
            assert(has_key(all, key));
        }
    }
    (changes, reads)
}

/// A key that occurs in `done` is below everything that all of `done` is below.
proof fn lemma_key_below<T: Keyed>(s: Seq<T>, done: Seq<MergedSlot>, i: int, key: Seq<u8>)
    requires
        0 <= i < s.len(),
        has_key(s, s[i].spec_key()) ==> has_key(done, s[i].spec_key()),
        forall|k: int| 0 <= k < done.len() ==> lex_lt((#[trigger] done[k]).spec_key(), key),
    ensures
        lex_lt(s[i].spec_key(), key),
{
    assert(has_key(s, s[i].spec_key()));
    let k = choose|k: int|
        0 <= k < done.len() && (#[trigger] done[k]).spec_key() == s[i].spec_key();
    assert(lex_lt(done[k].spec_key(), key));
}

} // verus!
