//! What a merged access list says of the simulations that went into it.
use vstd::prelude::*;

use crate::access_laws::{
    law_bep592_payload_ignores_values, same_accesses, same_account, same_slot,
};
use crate::access_list::{
    AccountAccessListEncode, BlockAccessListEncode, SlotAccess, StorageAccessItem,
};
use crate::changes::{AccountChanges, BlockChanges, SlotChanges, SlotWrite};
use crate::merge::{
    are_changes, count_dirty, dirty_total, earliest, is_account_merge, is_account_of_changes,
    is_merge, slot_accesses, slot_total, visits, visits_of, visits_to, Visit,
};
use crate::order::{has_key, lemma_lex_total, lex_lt, strictly_ascending, Keyed};
use crate::rlp_item::{encode, RlpItem};
use crate::slot_merge::{
    are_slot_changes, are_slot_reads, are_writes_to, ascending_writes, has_write, is_accessed,
    is_first_access, is_last_write, is_made_by, is_merged_slot, is_slot_merge, is_write_by,
    is_written, lemma_last_of_writes, writes_key,
};
use crate::trace::SimulatedTransaction;

verus! {

/// A merged slot has the index of the first transaction that accessed it and is
/// dirty exactly if a transaction wrote it. If so, it has the value that the
/// last transaction to write it wrote, whatever reads came later. Every
/// accessed slot is there.
pub proof fn law_merged_slots(slots: Seq<StorageAccessItem>, accesses: Seq<SlotAccess>)
    requires
        is_slot_merge(slots, accesses),
    ensures
        strictly_ascending(slots),
        forall|key: Seq<u8>| #[trigger] has_key(slots, key) <==> is_accessed(accesses, key),
        forall|j: int|
            0 <= j < slots.len() ==> is_first_access(
                accesses,
                (#[trigger] slots[j]).key@,
                slots[j].tx_index,
            ),
        forall|j: int|
            0 <= j < slots.len() ==> (#[trigger] slots[j]).dirty == is_written(
                accesses,
                slots[j].key@,
            ),
        forall|j: int|
            0 <= j < slots.len() && (#[trigger] slots[j]).dirty ==> exists|i: int| #[trigger]
                is_last_write(accesses, slots[j].key@, i) && accesses[i].value == slots[j].value@,
{
    assert forall|key: Seq<u8>| #[trigger] has_key(slots, key) implies is_accessed(
        accesses,
        key,
    ) by {
        let j = choose|j: int| 0 <= j < slots.len() && (#[trigger] slots[j]).spec_key() == key;
        assert(is_merged_slot(slots[j], accesses));
    }
    assert forall|j: int| 0 <= j < slots.len() implies is_merged_slot(#[trigger] slots[j], accesses) by {
    }
}

/// A list of changes has exactly the slots that are written, and for each of
/// them exactly the transactions that write it.
pub proof fn law_changes_are_the_writes(changes: Seq<SlotChanges>, accesses: Seq<SlotAccess>)
    requires
        are_slot_changes(changes, accesses),
    ensures
        forall|key: Seq<u8>| #[trigger] has_key(changes, key) <==> is_written(accesses, key),
        forall|j: int, tx_index: u32|
            0 <= j < changes.len() ==> (#[trigger] has_write(changes[j].writes@, tx_index)
                <==> exists|i: int| #[trigger]
                writes_key(accesses, changes[j].key@, i) && accesses[i].tx_index == tx_index),
{
    assert forall|key: Seq<u8>| #[trigger] has_key(changes, key) implies is_written(
        accesses,
        key,
    ) by {
        let j = choose|j: int| 0 <= j < changes.len() && (#[trigger] changes[j]).spec_key() == key;
        lemma_last_of_writes(changes[j].writes@, accesses, key);
    }
    assert forall|j: int, tx_index: u32| 0 <= j < changes.len() implies (#[trigger] has_write(
        changes[j].writes@,
        tx_index,
    ) <==> exists|i: int| #[trigger]
        writes_key(accesses, changes[j].key@, i) && accesses[i].tx_index == tx_index) by {
        let writes = changes[j].writes@;
        let key = changes[j].key@;
        assert(are_writes_to(writes, accesses, key));
        if has_write(writes, tx_index) {
            let k = choose|k: int|
                0 <= k < writes.len() && (#[trigger] writes[k]).tx_index == tx_index;
            assert(is_made_by(writes[k], accesses, key));
            let i = choose|i: int| #[trigger]
                is_write_by(accesses, key, tx_index, i) && accesses[i].value == writes[k].value@;
            assert(writes_key(accesses, key, i) && accesses[i].tx_index == tx_index);
        }
    }
}

/// The value of a written slot in the merged list is that of the last write in
/// the list of changes.
pub proof fn law_value_is_last_change(
    slots: Seq<StorageAccessItem>,
    changes: Seq<SlotChanges>,
    accesses: Seq<SlotAccess>,
    i: int,
    j: int,
)
    requires
        is_slot_merge(slots, accesses),
        are_slot_changes(changes, accesses),
        0 <= i < slots.len(),
        0 <= j < changes.len(),
        slots[i].key@ == changes[j].key@,
    ensures
        slots[i].dirty,
        slots[i].value@ == changes[j].writes@.last().value@,
{
    let key = slots[i].key@;
    assert(is_merged_slot(slots[i], accesses));
    assert(are_writes_to(changes[j].writes@, accesses, key));
    lemma_last_of_writes(changes[j].writes@, accesses, key);
    let m = choose|m: int| #[trigger]
        is_last_write(accesses, key, m) && accesses[m].value == slots[i].value@;
    let n = choose|n: int| #[trigger]
        is_last_write(accesses, key, n) && accesses[n].value == changes[j].writes@.last().value@;
    assert(writes_key(accesses, key, m) && writes_key(accesses, key, n));
    assert(m == n);
}

/// The keys of two strictly ascending sequences with the same keys are the same
/// at each position.
proof fn lemma_same_keys<T: Keyed>(s: Seq<T>, t: Seq<T>)
    requires
        strictly_ascending(s),
        strictly_ascending(t),
        forall|key: Seq<u8>| #[trigger] has_key(s, key) <==> has_key(t, key),
    ensures
        s.len() == t.len(),
        forall|i: int| 0 <= i < s.len() ==> (#[trigger] s[i]).spec_key() == t[i].spec_key(),
    decreases s.len(),
{
    if s.len() == 0 {
        if t.len() > 0 {
            assert(has_key(t, t[0].spec_key()));
            assert(has_key(s, t[0].spec_key()));
        }
    } else {
        let n = s.len() - 1;
        let x = s[n].spec_key();
        assert(has_key(s, x));
        assert(has_key(t, x));
        let m = t.len() - 1;
        let y = t[m].spec_key();
        assert(has_key(t, y));
        assert(has_key(s, y));
        let k = choose|k: int| 0 <= k < s.len() && (#[trigger] s[k]).spec_key() == y;
        let l = choose|l: int| 0 <= l < t.len() && (#[trigger] t[l]).spec_key() == x;
        lemma_lex_total(x, y);
        lemma_lex_total(y, x);
        assert(x == y) by {
            if k < n {
                assert(lex_lt(s[k].spec_key(), s[n].spec_key()));
            }
            if l < m {
                assert(lex_lt(t[l].spec_key(), t[m].spec_key()));
            }
        }
        let front = s.drop_last();
        let other = t.drop_last();
        assert forall|i: int, j: int| #![trigger front[i], front[j]] 0 <= i < j < front.len() implies lex_lt(
            front[i].spec_key(),
            front[j].spec_key(),
        ) by {
            assert(front[i] == s[i] && front[j] == s[j]);
        }
        assert forall|i: int, j: int| #![trigger other[i], other[j]] 0 <= i < j < other.len() implies lex_lt(
            other[i].spec_key(),
            other[j].spec_key(),
        ) by {
            assert(other[i] == t[i] && other[j] == t[j]);
        }
        lemma_keys_without_last(s);
        lemma_keys_without_last(t);
        assert forall|key: Seq<u8>| #[trigger] has_key(front, key) <==> has_key(other, key) by {
            assert(has_key(s, key) <==> has_key(t, key));
        }
        lemma_same_keys(front, other);
        assert forall|i: int| 0 <= i < s.len() implies (#[trigger] s[i]).spec_key()
            == t[i].spec_key() by {
            if i < n {
                assert(front[i] == s[i] && other[i] == t[i]);
            }
        }
    }
}

proof fn lemma_keys_without_last<T: Keyed>(s: Seq<T>)
    requires
        s.len() > 0,
        strictly_ascending(s),
    ensures
        forall|key: Seq<u8>|
            #[trigger] has_key(s.drop_last(), key) <==> has_key(s, key) && key
                != s.last().spec_key(),
{
    let front = s.drop_last();
    let n = s.len() - 1;
    assert forall|key: Seq<u8>| #[trigger] has_key(front, key) <==> has_key(s, key) && key
        != s.last().spec_key() by {
        if has_key(front, key) {
            let i = choose|i: int| 0 <= i < front.len() && (#[trigger] front[i]).spec_key() == key;
            assert(s[i].spec_key() == key);
            assert(lex_lt(s[i].spec_key(), s[n].spec_key()));
            lemma_lex_total(key, key);
        }
        if has_key(s, key) && key != s.last().spec_key() {
            let i = choose|i: int| 0 <= i < s.len() && (#[trigger] s[i]).spec_key() == key;
            assert(front[i].spec_key() == key);
        }
    }
}

/// Whether two sequences have the same elements, whatever their order and
/// number.
pub open spec fn same_elements<A>(s: Seq<A>, t: Seq<A>) -> bool {
    forall|x: A| s.contains(x) <==> t.contains(x)
}

/// What is visited is visited by one of the simulations.
pub proof fn lemma_visits_contain(simulations: Seq<SimulatedTransaction>, v: Visit)
    ensures
        visits(simulations).contains(v) <==> exists|i: int|
            0 <= i < simulations.len() && visits_of(#[trigger] simulations[i]).contains(v),
    decreases simulations.len(),
{
    let all = visits(simulations);
    if simulations.len() > 0 {
        let front = simulations.drop_last();
        let last = simulations.len() - 1;
        let before = visits(front);
        let added = visits_of(simulations[last]);
        lemma_visits_contain(front, v);
        if all.contains(v) {
            let i = choose|i: int| 0 <= i < all.len() && all[i] == v;
            if i < before.len() {
                assert(before[i] == v);
                let k = choose|k: int|
                    0 <= k < front.len() && visits_of(#[trigger] front[k]).contains(v);
                assert(simulations[k] == front[k]);
            } else {
                assert(added[i - before.len()] == v);
            }
        }
        if exists|i: int| 0 <= i < simulations.len() && visits_of(#[trigger] simulations[i]).contains(v) {
            let i = choose|i: int|
                0 <= i < simulations.len() && visits_of(#[trigger] simulations[i]).contains(v);
            if i < last {
                assert(front[i] == simulations[i]);
                let k = choose|k: int| 0 <= k < before.len() && before[k] == v;
                assert(all[k] == v);
            } else {
                let k = choose|k: int| 0 <= k < added.len() && added[k] == v;
                assert(all[before.len() + k] == v);
            }
        }
    }
}

proof fn lemma_same_visits(s: Seq<SimulatedTransaction>, t: Seq<SimulatedTransaction>)
    requires
        same_elements(s, t),
    ensures
        same_elements(visits(s), visits(t)),
{
    assert forall|v: Visit| visits(s).contains(v) <==> visits(t).contains(v) by {
        lemma_visits_contain(s, v);
        lemma_visits_contain(t, v);
        if visits(s).contains(v) {
            let i = choose|i: int| 0 <= i < s.len() && visits_of(#[trigger] s[i]).contains(v);
            assert(s.contains(s[i]));
            assert(t.contains(s[i]));
            let k = choose|k: int| 0 <= k < t.len() && t[k] == s[i];
            assert(visits_of(t[k]).contains(v));
        }
        if visits(t).contains(v) {
            let i = choose|i: int| 0 <= i < t.len() && visits_of(#[trigger] t[i]).contains(v);
            assert(t.contains(t[i]));
            assert(s.contains(t[i]));
            let k = choose|k: int| 0 <= k < s.len() && s[k] == t[i];
            assert(visits_of(s[k]).contains(v));
        }
    }
}

proof fn lemma_filtered_visits(all: Seq<Visit>, address: Seq<u8>)
    ensures
        forall|v: Visit| #[trigger]
            visits_to(all, address).contains(v) <==> all.contains(v) && v.account.address == address,
    decreases all.len(),
{
    reveal(Seq::filter);
    let res = visits_to(all, address);
    if all.len() > 0 {
        let front = all.drop_last();
        let before = visits_to(front, address);
        lemma_filtered_visits(front, address);
        assert forall|v: Visit| #[trigger] res.contains(v) <==> all.contains(v) && v.account.address
            == address by {
            if before.contains(v) {
                let i = choose|i: int| 0 <= i < before.len() && before[i] == v;
                assert(res[i] == v);
                let k = choose|k: int| 0 <= k < front.len() && front[k] == v;
                assert(all[k] == v);
            }
            if all.contains(v) {
                let i = choose|i: int| 0 <= i < all.len() && all[i] == v;
                if i < front.len() {
                    assert(front[i] == v);
                } else if v.account.address == address {
                    assert(res[res.len() - 1] == v);
                }
            }
            if res.contains(v) {
                let i = choose|i: int| 0 <= i < res.len() && res[i] == v;
                if i < before.len() {
                    assert(before[i] == v);
                } else {
                    assert(all[all.len() - 1] == v);
                }
            }
        }
    }
}

proof fn lemma_accesses_contain(all: Seq<Visit>, a: SlotAccess)
    ensures
        slot_accesses(all).contains(a) <==> exists|i: int|
            0 <= i < all.len() && (#[trigger] all[i]).account.slots.contains(a),
    decreases all.len(),
{
    let res = slot_accesses(all);
    if all.len() > 0 {
        let front = all.drop_last();
        let last = all.len() - 1;
        let before = slot_accesses(front);
        let added = all[last].account.slots;
        lemma_accesses_contain(front, a);
        if res.contains(a) {
            let i = choose|i: int| 0 <= i < res.len() && res[i] == a;
            if i < before.len() {
                assert(before[i] == a);
                let k = choose|k: int|
                    0 <= k < front.len() && (#[trigger] front[k]).account.slots.contains(a);
                assert(all[k] == front[k]);
            } else {
                assert(added[i - before.len()] == a);
            }
        }
        if exists|i: int| 0 <= i < all.len() && (#[trigger] all[i]).account.slots.contains(a) {
            let i = choose|i: int|
                0 <= i < all.len() && (#[trigger] all[i]).account.slots.contains(a);
            if i < last {
                assert(front[i] == all[i]);
                let k = choose|k: int| 0 <= k < before.len() && before[k] == a;
                assert(res[k] == a);
            } else {
                let k = choose|k: int| 0 <= k < added.len() && added[k] == a;
                assert(res[before.len() + k] == a);
            }
        }
    }
}

proof fn lemma_same_accesses_of_visits(s: Seq<Visit>, t: Seq<Visit>)
    requires
        same_elements(s, t),
    ensures
        same_elements(slot_accesses(s), slot_accesses(t)),
{
    assert forall|a: SlotAccess| slot_accesses(s).contains(a) <==> slot_accesses(t).contains(a) by {
        lemma_accesses_contain(s, a);
        lemma_accesses_contain(t, a);
        if slot_accesses(s).contains(a) {
            let i = choose|i: int| 0 <= i < s.len() && (#[trigger] s[i]).account.slots.contains(a);
            assert(s.contains(s[i]));
            assert(t.contains(s[i]));
            let k = choose|k: int| 0 <= k < t.len() && t[k] == s[i];
            assert(t[k].account.slots.contains(a));
        }
        if slot_accesses(t).contains(a) {
            let i = choose|i: int| 0 <= i < t.len() && (#[trigger] t[i]).account.slots.contains(a);
            assert(t.contains(t[i]));
            assert(s.contains(t[i]));
            let k = choose|k: int| 0 <= k < s.len() && s[k] == t[i];
            assert(s[k].account.slots.contains(a));
        }
    }
}

proof fn lemma_earliest(all: Seq<Visit>)
    requires
        all.len() > 0,
    ensures
        exists|i: int| 0 <= i < all.len() && (#[trigger] all[i]).tx_index == earliest(all),
        forall|i: int| 0 <= i < all.len() ==> earliest(all) <= (#[trigger] all[i]).tx_index,
    decreases all.len(),
{
    if all.len() == 1 {
        assert(all[0].tx_index == earliest(all));
    } else {
        let front = all.drop_last();
        let last = all.len() - 1;
        lemma_earliest(front);
        let w = choose|i: int|
            0 <= i < front.len() && (#[trigger] front[i]).tx_index == earliest(front);
        assert(all[w] == front[w]);
        assert(all[last].tx_index == all.last().tx_index);
        assert forall|i: int| 0 <= i < all.len() implies earliest(all) <= (#[trigger] all[i]).tx_index by {
            if i < last {
                assert(front[i] == all[i]);
            }
        }
    }
}

proof fn lemma_same_earliest(s: Seq<Visit>, t: Seq<Visit>)
    requires
        s.len() > 0,
        t.len() > 0,
        same_elements(s, t),
    ensures
        earliest(s) == earliest(t),
{
    lemma_earliest(s);
    lemma_earliest(t);
    let i = choose|i: int| 0 <= i < s.len() && (#[trigger] s[i]).tx_index == earliest(s);
    let j = choose|j: int| 0 <= j < t.len() && (#[trigger] t[j]).tx_index == earliest(t);
    assert(s.contains(s[i]) && t.contains(t[j]));
    assert(t.contains(s[i]) && s.contains(t[j]));
    let k = choose|k: int| 0 <= k < t.len() && t[k] == s[i];
    let l = choose|l: int| 0 <= l < s.len() && s[l] == t[j];
    assert(earliest(t) <= t[k].tx_index);
    assert(earliest(s) <= s[l].tx_index);
}

proof fn lemma_same_first_access(
    s: Seq<SlotAccess>,
    t: Seq<SlotAccess>,
    key: Seq<u8>,
    x: u32,
    y: u32,
)
    requires
        same_elements(s, t),
        is_first_access(s, key, x),
        is_first_access(t, key, y),
    ensures
        x == y,
        is_written(s, key) == is_written(t, key),
{
    let i = choose|i: int|
        0 <= i < s.len() && (#[trigger] s[i]).key == key && s[i].tx_index == x;
    let j = choose|j: int|
        0 <= j < t.len() && (#[trigger] t[j]).key == key && t[j].tx_index == y;
    assert(s.contains(s[i]) && t.contains(t[j]));
    assert(t.contains(s[i]) && s.contains(t[j]));
    let k = choose|k: int| 0 <= k < t.len() && t[k] == s[i];
    let l = choose|l: int| 0 <= l < s.len() && s[l] == t[j];
    assert(t[k].key == key && s[l].key == key);
    lemma_written_carries(s, t, key);
    lemma_written_carries(t, s, key);
}

proof fn lemma_written_carries(s: Seq<SlotAccess>, t: Seq<SlotAccess>, key: Seq<u8>)
    requires
        same_elements(s, t),
    ensures
        is_written(s, key) ==> is_written(t, key),
        is_accessed(s, key) ==> is_accessed(t, key),
{
    if is_written(s, key) {
        let i = choose|i: int| writes_key(s, key, i);
        assert(s.contains(s[i]));
        assert(t.contains(s[i]));
        let k = choose|k: int| 0 <= k < t.len() && t[k] == s[i];
        assert(writes_key(t, key, k));
    }
    if is_accessed(s, key) {
        let i = choose|i: int| 0 <= i < s.len() && (#[trigger] s[i]).key == key;
        assert(s.contains(s[i]));
        assert(t.contains(s[i]));
        let k = choose|k: int| 0 <= k < t.len() && t[k] == s[i];
        assert(t[k].key == key);
    }
}

proof fn lemma_same_merged_slots(
    slots: Seq<StorageAccessItem>,
    others: Seq<StorageAccessItem>,
    s: Seq<SlotAccess>,
    t: Seq<SlotAccess>,
)
    requires
        is_slot_merge(slots, s),
        is_slot_merge(others, t),
        same_elements(s, t),
    ensures
        slots.len() == others.len(),
        forall|i: int|
            #![trigger slots[i]]
            #![trigger others[i]]
            0 <= i < slots.len() ==> same_slot(slots[i], others[i]),
{
    law_merged_slots(slots, s);
    law_merged_slots(others, t);
    assert forall|key: Seq<u8>| #[trigger] has_key(slots, key) <==> has_key(others, key) by {
        lemma_written_carries(s, t, key);
        lemma_written_carries(t, s, key);
    }
    lemma_same_keys(slots, others);
    assert forall|i: int|
        #![trigger slots[i]]
        #![trigger others[i]]
        0 <= i < slots.len() implies same_slot(slots[i], others[i]) by {
        let key = slots[i].key@;
        assert(slots[i].spec_key() == others[i].spec_key());
        lemma_same_first_access(s, t, key, slots[i].tx_index, others[i].tx_index);
    }
}

/// The order in which simulations finish has no influence on the access list
/// but for the values of its slots, and none on its BEP-592 payload.
pub proof fn law_bep592_payload_ignores_order_of_simulations(
    a: BlockAccessListEncode,
    b: BlockAccessListEncode,
    s: Seq<SimulatedTransaction>,
    t: Seq<SimulatedTransaction>,
)
    requires
        same_elements(s, t),
        is_merge(a.accounts@, visits(s)),
        is_merge(b.accounts@, visits(t)),
        a.version == b.version,
        a.number == b.number,
        a.hash@ == b.hash@,
        a.sign_data@ == b.sign_data@,
    ensures
        same_accesses(a, b),
        encode(a.bep592_item()) == encode(b.bep592_item()),
{
    let x = a.accounts@;
    let y = b.accounts@;
    lemma_same_visits(s, t);
    lemma_merged_addresses(x, visits(s));
    lemma_merged_addresses(y, visits(t));
    lemma_same_addresses(x, y, visits(s), visits(t));
    assert forall|i: int|
        #![trigger a.accounts@[i]]
        #![trigger b.accounts@[i]]
        0 <= i < x.len() implies same_account(x[i], y[i]) by {
        let address = x[i].address@;
        assert(x[i].spec_key() == y[i].spec_key());
        let p = visits_to(visits(s), address);
        let q = visits_to(visits(t), address);
        lemma_filtered_visits(visits(s), address);
        lemma_filtered_visits(visits(t), address);
        assert(is_account_merge(x[i].tx_index, x[i].storage_items@, p));
        assert(is_account_merge(y[i].tx_index, y[i].storage_items@, q));
        assert forall|v: Visit| p.contains(v) <==> q.contains(v) by {
            assert(visits(s).contains(v) <==> visits(t).contains(v));
        }
        lemma_same_earliest(p, q);
        lemma_same_accesses_of_visits(p, q);
        lemma_same_merged_slots(
            x[i].storage_items@,
            y[i].storage_items@,
            slot_accesses(p),
            slot_accesses(q),
        );
    }
    law_bep592_payload_ignores_values(a, b);
}

/// The addresses of accounts are those that are visited.
proof fn lemma_addresses<T: Keyed>(accounts: Seq<T>, all: Seq<Visit>)
    requires
        forall|j: int|
            0 <= j < accounts.len() ==> visits_to(
                all,
                (#[trigger] accounts[j]).spec_key(),
            ).len() > 0,
        forall|i: int|
            0 <= i < all.len() ==> has_key(accounts, (#[trigger] all[i]).account.address),
    ensures
        forall|address: Seq<u8>|
            #[trigger] has_key(accounts, address) <==> exists|v: Visit|
                #[trigger] all.contains(v) && v.account.address == address,
{
    assert forall|address: Seq<u8>| #[trigger] has_key(accounts, address) <==> exists|v: Visit|
        #[trigger] all.contains(v) && v.account.address == address by {
        if has_key(accounts, address) {
            let j = choose|j: int|
                0 <= j < accounts.len() && (#[trigger] accounts[j]).spec_key() == address;
            let own = visits_to(all, accounts[j].spec_key());
            lemma_filtered_visits(all, address);
            assert(own.contains(own[0]));
            assert(all.contains(own[0]));
        }
        if exists|v: Visit| #[trigger] all.contains(v) && v.account.address == address {
            let v = choose|v: Visit| #[trigger] all.contains(v) && v.account.address == address;
            let i = choose|i: int| 0 <= i < all.len() && all[i] == v;
            assert(has_key(accounts, all[i].account.address));
        }
    }
}

proof fn lemma_merged_addresses(accounts: Seq<AccountAccessListEncode>, all: Seq<Visit>)
    requires
        is_merge(accounts, all),
    ensures
        forall|address: Seq<u8>|
            #[trigger] has_key(accounts, address) <==> exists|v: Visit|
                #[trigger] all.contains(v) && v.account.address == address,
{
    assert forall|j: int| 0 <= j < accounts.len() implies visits_to(
        all,
        (#[trigger] accounts[j]).spec_key(),
    ).len() > 0 by {
        assert(is_account_merge(
            accounts[j].tx_index,
            accounts[j].storage_items@,
            visits_to(all, accounts[j].address@),
        ));
    }
    lemma_addresses(accounts, all);
}

/// Lists that are made of the same simulations have the same addresses.
proof fn lemma_same_addresses<T: Keyed>(x: Seq<T>, y: Seq<T>, p: Seq<Visit>, q: Seq<Visit>)
    requires
        same_elements(p, q),
        strictly_ascending(x),
        strictly_ascending(y),
        forall|address: Seq<u8>|
            #[trigger] has_key(x, address) <==> exists|v: Visit|
                #[trigger] p.contains(v) && v.account.address == address,
        forall|address: Seq<u8>|
            #[trigger] has_key(y, address) <==> exists|v: Visit|
                #[trigger] q.contains(v) && v.account.address == address,
    ensures
        x.len() == y.len(),
        forall|i: int| 0 <= i < x.len() ==> (#[trigger] x[i]).spec_key() == y[i].spec_key(),
{
    assert forall|address: Seq<u8>| #[trigger] has_key(x, address) <==> has_key(y, address) by {
        if has_key(x, address) {
            let v = choose|v: Visit| #[trigger] p.contains(v) && v.account.address == address;
            assert(q.contains(v));
        }
        if has_key(y, address) {
            let v = choose|v: Visit| #[trigger] q.contains(v) && v.account.address == address;
            assert(p.contains(v));
        }
    }
    lemma_same_keys(x, y);
}

/// Whether a slot is written with one value only by any one transaction.
pub open spec fn writes_agree(all: Seq<Visit>) -> bool {
    forall|v: Visit, w: Visit, a: SlotAccess, b: SlotAccess|
        #![trigger all.contains(v), all.contains(w), v.account.slots.contains(a), w.account.slots.contains(b)]
        {
            &&& all.contains(v) && v.account.slots.contains(a) && a.dirty
            &&& all.contains(w) && w.account.slots.contains(b) && b.dirty
            &&& v.account.address == w.account.address
            &&& a.key == b.key
            &&& a.tx_index == b.tx_index
        } ==> a.value == b.value
}

/// Two ascending lists of writes by the same transactions have the same
/// transactions at each position.
proof fn lemma_same_transactions(s: Seq<SlotWrite>, t: Seq<SlotWrite>)
    requires
        ascending_writes(s),
        ascending_writes(t),
        forall|tx_index: u32| #[trigger] has_write(s, tx_index) <==> has_write(t, tx_index),
    ensures
        s.len() == t.len(),
        forall|i: int| 0 <= i < s.len() ==> (#[trigger] s[i]).tx_index == t[i].tx_index,
    decreases s.len(),
{
    if s.len() == 0 {
        if t.len() > 0 {
            assert(has_write(t, t[0].tx_index));
            assert(has_write(s, t[0].tx_index));
        }
    } else {
        let n = s.len() - 1;
        let m = t.len() - 1;
        let x = s[n].tx_index;
        assert(has_write(s, x));
        assert(has_write(t, x));
        let l = choose|l: int| 0 <= l < t.len() && (#[trigger] t[l]).tx_index == x;
        let y = t[m].tx_index;
        assert(has_write(t, y));
        assert(has_write(s, y));
        let k = choose|k: int| 0 <= k < s.len() && (#[trigger] s[k]).tx_index == y;
        assert(x == y) by {
            if k < n {
                assert(s[k].tx_index < s[n].tx_index);
            }
            if l < m {
                assert(t[l].tx_index < t[m].tx_index);
            }
        }
        let front = s.drop_last();
        let other = t.drop_last();
        lemma_writes_without_last(s);
        lemma_writes_without_last(t);
        assert forall|tx_index: u32| #[trigger] has_write(front, tx_index) <==> has_write(
            other,
            tx_index,
        ) by {
            assert(has_write(s, tx_index) <==> has_write(t, tx_index));
        }
        lemma_same_transactions(front, other);
        assert forall|i: int| 0 <= i < s.len() implies (#[trigger] s[i]).tx_index == t[i].tx_index by {
            if i < n {
                assert(front[i] == s[i] && other[i] == t[i]);
            }
        }
    }
}

proof fn lemma_writes_without_last(s: Seq<SlotWrite>)
    requires
        s.len() > 0,
        ascending_writes(s),
    ensures
        ascending_writes(s.drop_last()),
        forall|tx_index: u32| #[trigger]
            has_write(s.drop_last(), tx_index) <==> has_write(s, tx_index) && tx_index
                != s.last().tx_index,
{
    let front = s.drop_last();
    let n = s.len() - 1;
    assert forall|i: int, j: int| #![trigger front[i], front[j]] 0 <= i < j < front.len() implies front[i].tx_index
        < front[j].tx_index by {
        assert(front[i] == s[i] && front[j] == s[j]);
    }
    assert forall|tx_index: u32| #[trigger] has_write(front, tx_index) <==> has_write(s, tx_index)
        && tx_index != s.last().tx_index by {
        if has_write(front, tx_index) {
            let i = choose|i: int|
                0 <= i < front.len() && (#[trigger] front[i]).tx_index == tx_index;
            assert(s[i].tx_index == tx_index);
            assert(s[i].tx_index < s[n].tx_index);
        }
        if has_write(s, tx_index) && tx_index != s.last().tx_index {
            let i = choose|i: int| 0 <= i < s.len() && (#[trigger] s[i]).tx_index == tx_index;
            assert(front[i].tx_index == tx_index);
        }
    }
}

/// Whether a slot is written with one value only by any one transaction, among
/// the accesses to the slots of one account.
spec fn accesses_agree(s: Seq<SlotAccess>) -> bool {
    forall|a: SlotAccess, b: SlotAccess|
        #![trigger s.contains(a), s.contains(b)]
        s.contains(a) && s.contains(b) && a.dirty && b.dirty && a.key == b.key && a.tx_index
            == b.tx_index ==> a.value == b.value
}

proof fn lemma_same_writes(
    writes: Seq<SlotWrite>,
    others: Seq<SlotWrite>,
    s: Seq<SlotAccess>,
    t: Seq<SlotAccess>,
    key: Seq<u8>,
    first: nat,
)
    requires
        are_writes_to(writes, s, key),
        are_writes_to(others, t, key),
        same_elements(s, t),
        accesses_agree(s),
    ensures
        writes.map_values(|w: SlotWrite| w.item_from(first)) == others.map_values(
            |w: SlotWrite| w.item_from(first),
        ),
{
    lemma_write_carries(writes, others, s, t, key);
    lemma_write_carries(others, writes, t, s, key);
    lemma_same_transactions(writes, others);
    let p = writes.map_values(|w: SlotWrite| w.item_from(first));
    let q = others.map_values(|w: SlotWrite| w.item_from(first));
    assert forall|i: int| 0 <= i < p.len() implies p[i] == q[i] by {
        let tx_index = writes[i].tx_index;
        assert(others[i].tx_index == tx_index);
        assert(is_made_by(writes[i], s, key));
        assert(is_made_by(others[i], t, key));
        let m = choose|m: int| #[trigger]
            is_write_by(s, key, tx_index, m) && s[m].value == writes[i].value@;
        let n = choose|n: int| #[trigger]
            is_write_by(t, key, tx_index, n) && t[n].value == others[i].value@;
        assert(s.contains(s[m]) && t.contains(t[n]));
        assert(s.contains(t[n]));
        assert(writes[i].item_from(first)->List_0 =~= others[i].item_from(first)->List_0);
    }
    assert(p =~= q);
}

proof fn lemma_write_carries(
    writes: Seq<SlotWrite>,
    others: Seq<SlotWrite>,
    s: Seq<SlotAccess>,
    t: Seq<SlotAccess>,
    key: Seq<u8>,
)
    requires
        are_writes_to(writes, s, key),
        are_writes_to(others, t, key),
        same_elements(s, t),
    ensures
        forall|tx_index: u32| #[trigger]
            has_write(writes, tx_index) ==> has_write(others, tx_index),
{
    assert forall|tx_index: u32| #[trigger] has_write(writes, tx_index) implies has_write(
        others,
        tx_index,
    ) by {
        let j = choose|j: int| 0 <= j < writes.len() && (#[trigger] writes[j]).tx_index == tx_index;
        assert(is_made_by(writes[j], s, key));
        let i = choose|i: int| #[trigger]
            is_write_by(s, key, tx_index, i) && s[i].value == writes[j].value@;
        assert(s.contains(s[i]));
        assert(t.contains(s[i]));
        let k = choose|k: int| 0 <= k < t.len() && t[k] == s[i];
        assert(writes_key(t, key, k));
    }
}

/// The same accesses in another order make the same of an account.
proof fn lemma_same_account_changes(
    a: AccountChanges,
    b: AccountChanges,
    s: Seq<SlotAccess>,
    t: Seq<SlotAccess>,
    first: nat,
)
    requires
        a.address@ == b.address@,
        are_slot_changes(a.changes@, s),
        are_slot_reads(a.reads@, s),
        are_slot_changes(b.changes@, t),
        are_slot_reads(b.reads@, t),
        same_elements(s, t),
        accesses_agree(s),
    ensures
        a.item_from(first) == b.item_from(first),
{
    law_changes_are_the_writes(a.changes@, s);
    law_changes_are_the_writes(b.changes@, t);
    assert forall|key: Seq<u8>| #[trigger] has_key(a.changes@, key) <==> has_key(b.changes@, key) by {
        lemma_written_carries(s, t, key);
        lemma_written_carries(t, s, key);
    }
    assert forall|key: Seq<u8>| #[trigger] has_key(a.reads@, key) <==> has_key(b.reads@, key) by {
        lemma_written_carries(s, t, key);
        lemma_written_carries(t, s, key);
    }
    lemma_same_keys(a.changes@, b.changes@);
    lemma_same_keys(a.reads@, b.reads@);
    let x = a.item_from(first)->List_0;
    let y = b.item_from(first)->List_0;
    let p = x[1]->List_0;
    let q = y[1]->List_0;
    assert forall|i: int| 0 <= i < p.len() implies p[i] == q[i] by {
        let c = a.changes@[i];
        let d = b.changes@[i];
        assert(c.spec_key() == d.spec_key());
        lemma_same_writes(c.writes@, d.writes@, s, t, c.key@, first);
        assert(c.item_from(first)->List_0 =~= d.item_from(first)->List_0);
    }
    assert(p =~= q);
    let u = x[2]->List_0;
    let v = y[2]->List_0;
    assert forall|i: int| 0 <= i < u.len() implies u[i] == v[i] by {
        assert(a.reads@[i].spec_key() == b.reads@[i].spec_key());
        assert(u[i] == RlpItem::Str(a.reads@[i]@));
        assert(v[i] == RlpItem::Str(b.reads@[i]@));
    }
    assert(u =~= v);
    assert(x =~= y);
}

/// The order in which simulations finish has no influence on the EIP-7928 list
/// of their changes. Left out are simulations in which one transaction writes a
/// slot with two values: of these the one that comes first is kept.
pub proof fn law_eip7928_list_ignores_order_of_simulations(
    a: BlockChanges,
    b: BlockChanges,
    s: Seq<SimulatedTransaction>,
    t: Seq<SimulatedTransaction>,
    first: nat,
)
    requires
        same_elements(s, t),
        are_changes(a.accounts@, visits(s)),
        are_changes(b.accounts@, visits(t)),
        writes_agree(visits(s)),
    ensures
        encode(a.item_from(first)) == encode(b.item_from(first)),
{
    let x = a.accounts@;
    let y = b.accounts@;
    lemma_same_visits(s, t);
    lemma_changed_addresses(x, visits(s));
    lemma_changed_addresses(y, visits(t));
    lemma_same_addresses(x, y, visits(s), visits(t));
    let items = a.item_from(first)->List_0;
    let others = b.item_from(first)->List_0;
    assert forall|i: int| 0 <= i < items.len() implies items[i] == others[i] by {
        let address = x[i].address@;
        assert(x[i].spec_key() == y[i].spec_key());
        let p = visits_to(visits(s), address);
        let q = visits_to(visits(t), address);
        lemma_filtered_visits(visits(s), address);
        lemma_filtered_visits(visits(t), address);
        assert(is_account_of_changes(x[i], p));
        assert(is_account_of_changes(y[i], q));
        assert forall|v: Visit| p.contains(v) <==> q.contains(v) by {
            assert(visits(s).contains(v) <==> visits(t).contains(v));
        }
        lemma_same_accesses_of_visits(p, q);
        let accesses = slot_accesses(p);
        assert forall|c: SlotAccess, d: SlotAccess|
            #![trigger accesses.contains(c), accesses.contains(d)]
            accesses.contains(c) && accesses.contains(d) && c.dirty && d.dirty && c.key == d.key
                && c.tx_index == d.tx_index implies c.value == d.value by {
            lemma_accesses_contain(p, c);
            lemma_accesses_contain(p, d);
            let m = choose|m: int| 0 <= m < p.len() && (#[trigger] p[m]).account.slots.contains(c);
            let n = choose|n: int| 0 <= n < p.len() && (#[trigger] p[n]).account.slots.contains(d);
            assert(p.contains(p[m]) && p.contains(p[n]));
            assert(visits(s).contains(p[m]) && visits(s).contains(p[n]));
        }
        lemma_same_account_changes(x[i], y[i], accesses, slot_accesses(q), first);
    }
    assert(items =~= others);
}

/// The addresses of changed accounts are those that are visited.
pub proof fn lemma_changed_addresses(accounts: Seq<AccountChanges>, all: Seq<Visit>)
    requires
        are_changes(accounts, all),
    ensures
        forall|address: Seq<u8>|
            #[trigger] has_key(accounts, address) <==> exists|v: Visit|
                #[trigger] all.contains(v) && v.account.address == address,
{
    assert forall|j: int| 0 <= j < accounts.len() implies visits_to(
        all,
        (#[trigger] accounts[j]).spec_key(),
    ).len() > 0 by {
        assert(is_account_of_changes(accounts[j], visits_to(all, accounts[j].address@)));
    }
    lemma_addresses(accounts, all);
}

/// Whether `tx_index` is the lowest index among the visits to `address`.
pub open spec fn is_first_visit(all: Seq<Visit>, address: Seq<u8>, tx_index: u32) -> bool {
    &&& exists|v: Visit|
        #[trigger] all.contains(v) && v.account.address == address && v.tx_index == tx_index
    &&& forall|v: Visit|
        #[trigger] all.contains(v) && v.account.address == address ==> tx_index <= v.tx_index
}

/// A merged access list names each accessed account once, with the index of the
/// first transaction that accessed it.
pub proof fn law_merged_accounts(accounts: Seq<AccountAccessListEncode>, all: Seq<Visit>)
    requires
        is_merge(accounts, all),
    ensures
        strictly_ascending(accounts),
        forall|address: Seq<u8>|
            #[trigger] has_key(accounts, address) <==> exists|v: Visit|
                #[trigger] all.contains(v) && v.account.address == address,
        forall|j: int|
            0 <= j < accounts.len() ==> is_first_visit(
                all,
                (#[trigger] accounts[j]).address@,
                accounts[j].tx_index,
            ),
{
    lemma_merged_addresses(accounts, all);
    assert forall|j: int| 0 <= j < accounts.len() implies is_first_visit(
        all,
        (#[trigger] accounts[j]).address@,
        accounts[j].tx_index,
    ) by {
        let own = visits_to(all, accounts[j].address@);
        assert(is_account_merge(accounts[j].tx_index, accounts[j].storage_items@, own));
        lemma_filtered_visits(all, accounts[j].address@);
        lemma_earliest(own);
        let k = choose|k: int|
            0 <= k < own.len() && (#[trigger] own[k]).tx_index == accounts[j].tx_index;
        assert(own.contains(own[k]));
        assert(all.contains(own[k]));
        assert forall|v: Visit|
            #[trigger] all.contains(v) && v.account.address == accounts[j].address@ implies
            accounts[j].tx_index <= v.tx_index by {
            assert(own.contains(v));
            let m = choose|m: int| 0 <= m < own.len() && own[m] == v;
            assert(own[m].tx_index == v.tx_index);
        }
    }
}

/// Every slot counts either as read or as written.
pub proof fn law_slots_are_read_or_written(accounts: Seq<AccountAccessListEncode>)
    ensures
        slot_total(accounts) == dirty_total(accounts, false) + dirty_total(accounts, true),
    decreases accounts.len(),
{
    if accounts.len() > 0 {
        law_slots_are_read_or_written(accounts.drop_last());
        lemma_counts(accounts.last().storage_items@);
    }
}

proof fn lemma_counts(slots: Seq<StorageAccessItem>)
    ensures
        count_dirty(slots, false) + count_dirty(slots, true) == slots.len(),
    decreases slots.len(),
{
    reveal(Seq::filter);
    if slots.len() > 0 {
        lemma_counts(slots.drop_last());
    }
}

} // verus!
