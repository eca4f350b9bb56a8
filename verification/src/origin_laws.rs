//! Where each entry of a merged list comes from: every access of every
//! simulation is found in the list, and the list holds nothing else.
use vstd::prelude::*;

use crate::access_list::{
    AccountAccessListEncode, BlockAccessListEncode, SlotAccess, StorageAccessItem,
};
use crate::merge::{
    is_account_merge, is_list_of, lemma_visits_push, slot_accesses, visits, visits_of, visits_to,
    HeadContext, Visit,
};
use crate::merge_laws::{law_merged_accounts, lemma_visits_contain};
use crate::order::{
    has_key, law_order_is_that_of_the_first_difference, lex_lt, precedes, Keyed,
};
use crate::slot_merge::{
    is_last_taken_over, is_last_write, is_merged_slot, is_taken_over, writes_key,
};
use crate::trace::SimulatedTransaction;

verus! {

/// Where an access stands: in which simulation, in which of its accounts, and
/// where among the accesses to that account.
pub struct Place {
    pub simulation: int,
    pub account: int,
    pub slot: int,
}

/// Whether the account at a position of a simulation is the one at `address`.
pub open spec fn visits_at(
    simulations: Seq<SimulatedTransaction>,
    i: int,
    k: int,
    address: Seq<u8>,
) -> bool {
    &&& 0 <= i < simulations.len()
    &&& 0 <= k < simulations[i].accounts@.len()
    &&& simulations[i].accounts@[k].0@ == address
}

/// The access at a place.
pub open spec fn access_at(simulations: Seq<SimulatedTransaction>, p: Place) -> StorageAccessItem {
    simulations[p.simulation].accounts@[p.account].1@[p.slot]
}

/// Whether there is an access at a place, to a slot of the account at `address`.
pub open spec fn enters(
    simulations: Seq<SimulatedTransaction>,
    p: Place,
    address: Seq<u8>,
) -> bool {
    &&& visits_at(simulations, p.simulation, p.account, address)
    &&& 0 <= p.slot < simulations[p.simulation].accounts@[p.account].1@.len()
}

/// Whether the access at a place is one to the slot `key` of the account at
/// `address`.
pub open spec fn touches(
    simulations: Seq<SimulatedTransaction>,
    p: Place,
    address: Seq<u8>,
    key: Seq<u8>,
) -> bool {
    enters(simulations, p, address) && access_at(simulations, p).key@ == key
}

/// Whether one place comes before another.
pub open spec fn earlier(p: Place, q: Place) -> bool {
    ||| p.simulation < q.simulation
    ||| p.simulation == q.simulation && p.account < q.account
    ||| p.simulation == q.simulation && p.account == q.account && p.slot < q.slot
}

/// Whether `places` are those of the accesses to the account at `address` in the
/// first `n` simulations and the first `k` accounts of the next one, in order.
pub open spec fn are_places(
    places: Seq<Place>,
    accesses: Seq<SlotAccess>,
    simulations: Seq<SimulatedTransaction>,
    n: int,
    k: int,
    address: Seq<u8>,
) -> bool {
    &&& places.len() == accesses.len()
    &&& forall|x: int|
        0 <= x < places.len() ==> {
            &&& enters(simulations, #[trigger] places[x], address)
            &&& comes_within(places[x], n, k)
            &&& access_at(simulations, places[x]).tx_index == accesses[x].tx_index
            &&& access_at(simulations, places[x]).dirty == accesses[x].dirty
            &&& access_at(simulations, places[x]).key@ == accesses[x].key
            &&& access_at(simulations, places[x]).value@ == accesses[x].value
        }
    &&& forall|x: int, y: int|
        #![trigger places[x], places[y]]
        0 <= x < y < places.len() ==> earlier(places[x], places[y])
    &&& forall|p: Place| #[trigger]
        enters(simulations, p, address) && comes_within(p, n, k) ==> places.contains(p)
}

/// Whether a place lies in the first `n` simulations or in the first `k` accounts
/// of the next one.
pub open spec fn comes_within(p: Place, n: int, k: int) -> bool {
    p.simulation < n || (p.simulation == n && p.account < k)
}

proof fn lemma_places_within(
    simulations: Seq<SimulatedTransaction>,
    n: int,
    k: int,
    address: Seq<u8>,
) -> (places: Seq<Place>)
    requires
        0 <= n <= simulations.len(),
        0 <= k,
        n == simulations.len() ==> k == 0,
        n < simulations.len() ==> k <= simulations[n].accounts@.len(),
    ensures
        are_places(
            places,
            slot_accesses(
                visits_to(
                    if k > 0 {
                        visits(simulations.take(n)) + visits_of(simulations[n]).take(k)
                    } else {
                        visits(simulations.take(n))
                    },
                    address,
                ),
            ),
            simulations,
            n,
            k,
            address,
        ),
    decreases n, k,
{
    if k > 0 {
        let before = visits(simulations.take(n));
        let added = visits_of(simulations[n]);
        let all = if k > 1 {
            before + added.take(k - 1)
        } else {
            before
        };
        let next = added[k - 1];
        let earlier_places = lemma_places_within(simulations, n, k - 1, address);
        assert(all.push(next) =~= before + added.take(k));
        lemma_visits_push(all, next, address);
        let own = visits_to(all, address);
        assert(own.push(next).drop_last() =~= own);
        let accesses = slot_accesses(own);
        let account = simulations[n].accounts@[k - 1];
        if account.0@ == address {
            let more = Seq::new(
                account.1@.len(),
                |m: int| Place { simulation: n, account: k - 1, slot: m },
            );
            let places = earlier_places + more;
            let longer = accesses + next.account.slots;
            assert forall|p: Place| #[trigger]
                enters(simulations, p, address) && comes_within(p, n, k) implies places.contains(
                p,
            ) by {
                if comes_within(p, n, k - 1) {
                    let x = choose|x: int| 0 <= x < earlier_places.len() && earlier_places[x] == p;
                    assert(places[x] == p);
                } else {
                    assert(places[earlier_places.len() + p.slot] == p);
                }
            }
            assert forall|x: int| 0 <= x < places.len() implies {
                &&& enters(simulations, #[trigger] places[x], address)
                &&& comes_within(places[x], n, k)
                &&& access_at(simulations, places[x]).tx_index == longer[x].tx_index
                &&& access_at(simulations, places[x]).dirty == longer[x].dirty
                &&& access_at(simulations, places[x]).key@ == longer[x].key
                &&& access_at(simulations, places[x]).value@ == longer[x].value
            } by {
                if x < earlier_places.len() {
                    assert(places[x] == earlier_places[x]);
                } else {
                    assert(places[x] == more[x - earlier_places.len()]);
                }
            }
            assert forall|x: int, y: int| #![trigger places[x], places[y]] 0 <= x < y < places.len() implies earlier(
                places[x],
                places[y],
            ) by {
                if x < earlier_places.len() {
                    assert(places[x] == earlier_places[x]);
                }
                if y < earlier_places.len() {
                    assert(places[y] == earlier_places[y]);
                }
            }
            places
        } else {
            earlier_places
        }
    } else if n > 0 {
        let last = simulations[n - 1];
        let count = last.accounts@.len() as int;
        let places = lemma_places_within(simulations, n - 1, count, address);
        assert(simulations.take(n).drop_last() =~= simulations.take(n - 1));
        assert(visits_of(last).take(count) =~= visits_of(last));
        if count == 0 {
            assert(visits(simulations.take(n)) =~= visits(simulations.take(n - 1)));
        }
        places
    } else {
        reveal(Seq::filter);
        assert(visits_to(visits(simulations.take(0)), address) =~= Seq::empty());
        Seq::empty()
    }
}

/// The places of the accesses to the account at `address`, in order.
pub proof fn lemma_places(simulations: Seq<SimulatedTransaction>, address: Seq<u8>) -> (places: Seq<
    Place,
>)
    ensures
        are_places(
            places,
            slot_accesses(visits_to(visits(simulations), address)),
            simulations,
            simulations.len() as int,
            0,
            address,
        ),
{
    assert(simulations.take(simulations.len() as int) =~= simulations);
    lemma_places_within(simulations, simulations.len() as int, 0, address)
}

/// Every simulation's visit to an account is one of all visits, and nothing else
/// is.
pub proof fn lemma_visits_at(simulations: Seq<SimulatedTransaction>, address: Seq<u8>)
    ensures
        forall|i: int, k: int| #[trigger]
            visits_at(simulations, i, k, address) ==> exists|v: Visit| #[trigger]
                visits(simulations).contains(v) && v.account.address == address && v.tx_index
                    == simulations[i].tx_index,
        forall|v: Visit| #[trigger]
            visits(simulations).contains(v) && v.account.address == address ==> exists|i: int, k: int|
                #[trigger] visits_at(simulations, i, k, address) && v.tx_index
                    == simulations[i].tx_index,
{
    assert forall|i: int, k: int| #[trigger] visits_at(simulations, i, k, address) implies exists|
        v: Visit,
    | #[trigger]
        visits(simulations).contains(v) && v.account.address == address && v.tx_index
            == simulations[i].tx_index by {
        let v = visits_of(simulations[i])[k];
        assert(visits_of(simulations[i]).contains(v));
        lemma_visits_contain(simulations, v);
        assert(visits(simulations).contains(v));
    }
    assert forall|v: Visit| #[trigger]
        visits(simulations).contains(v) && v.account.address == address implies exists|i: int, k: int|
        #[trigger] visits_at(simulations, i, k, address) && v.tx_index
            == simulations[i].tx_index by {
        lemma_visits_contain(simulations, v);
        let i = choose|i: int|
            0 <= i < simulations.len() && visits_of(#[trigger] simulations[i]).contains(v);
        let own = visits_of(simulations[i]);
        let k = choose|k: int| 0 <= k < own.len() && own[k] == v;
        assert(visits_at(simulations, i, k, address));
    }
}

/// The access list of simulations is one of the block that it was made for, and
/// its accounts come in ascending order of their addresses, each once.
pub proof fn law_list_is_of_its_head(
    list: BlockAccessListEncode,
    head: HeadContext,
    simulations: Seq<SimulatedTransaction>,
)
    requires
        is_list_of(list, head, simulations),
    ensures
        list.version == 0,
        list.number == head.number,
        list.hash@ == head.hash@,
        list.sign_data@.len() == 0,
        forall|j: int, l: int|
            #![trigger list.accounts@[j], list.accounts@[l]]
            0 <= j < l < list.accounts@.len() ==> precedes(
                list.accounts@[j].address@,
                list.accounts@[l].address@,
            ),
{
    let accounts = list.accounts@;
    assert forall|j: int, l: int| #![trigger accounts[j], accounts[l]] 0 <= j < l < accounts.len() implies precedes(
        accounts[j].address@,
        accounts[l].address@,
    ) by {
        assert(lex_lt(accounts[j].spec_key(), accounts[l].spec_key()));
        law_order_is_that_of_the_first_difference(accounts[j].address@, accounts[l].address@);
    }
}

/// A listed account is visited by one of the simulations, and its index is the
/// lowest of those that visit it. Its slots come in ascending order, each once.
pub proof fn law_listed_account_was_visited(
    list: BlockAccessListEncode,
    head: HeadContext,
    simulations: Seq<SimulatedTransaction>,
    j: int,
)
    requires
        is_list_of(list, head, simulations),
        0 <= j < list.accounts@.len(),
    ensures
        exists|i: int, k: int| #[trigger]
            visits_at(simulations, i, k, list.accounts@[j].address@) && simulations[i].tx_index
                == list.accounts@[j].tx_index,
        forall|i: int, k: int| #[trigger]
            visits_at(simulations, i, k, list.accounts@[j].address@) ==> list.accounts@[j].tx_index
                <= simulations[i].tx_index,
        forall|s: int, t: int|
            #![trigger list.accounts@[j].storage_items@[s], list.accounts@[j].storage_items@[t]]
            0 <= s < t < list.accounts@[j].storage_items@.len() ==> precedes(
                list.accounts@[j].storage_items@[s].key@,
                list.accounts@[j].storage_items@[t].key@,
            ),
{
    let account = list.accounts@[j];
    let all = visits(simulations);
    lemma_visits_at(simulations, account.address@);
    law_merged_accounts(list.accounts@, all);
    let v = choose|v: Visit| #[trigger]
        all.contains(v) && v.account.address == account.address@ && v.tx_index == account.tx_index;
    assert(all.contains(v));
    assert(is_account_merge(
        account.tx_index,
        account.storage_items@,
        visits_to(all, account.address@),
    ));
    let slots = account.storage_items@;
    assert forall|s: int, t: int| #![trigger slots[s], slots[t]] 0 <= s < t < slots.len() implies precedes(
        slots[s].key@,
        slots[t].key@,
    ) by {
        assert(lex_lt(slots[s].spec_key(), slots[t].spec_key()));
        law_order_is_that_of_the_first_difference(slots[s].key@, slots[t].key@);
    }
}

/// Whether an account lists an access: a slot with its key that is first accessed
/// no later, and is dirty if the access is a write.
pub open spec fn lists_access(account: AccountAccessListEncode, item: StorageAccessItem) -> bool {
    exists|s: int|
        0 <= s < account.storage_items@.len() && (#[trigger] account.storage_items@[s]).key@
            == item.key@ && account.storage_items@[s].tx_index <= item.tx_index && (item.dirty
            ==> account.storage_items@[s].dirty)
}

/// Every account of every simulation is listed, with an index that is no higher,
/// and so is every access to a slot of it.
pub proof fn law_every_access_is_listed(
    list: BlockAccessListEncode,
    head: HeadContext,
    simulations: Seq<SimulatedTransaction>,
    i: int,
    k: int,
)
    requires
        is_list_of(list, head, simulations),
        0 <= i < simulations.len(),
        0 <= k < simulations[i].accounts@.len(),
    ensures
        exists|j: int|
            {
                &&& 0 <= j < list.accounts@.len()
                &&& (#[trigger] list.accounts@[j]).address@ == simulations[i].accounts@[k].0@
                &&& list.accounts@[j].tx_index <= simulations[i].tx_index
                &&& forall|m: int|
                    0 <= m < simulations[i].accounts@[k].1@.len() ==> lists_access(
                        list.accounts@[j],
                        #[trigger] simulations[i].accounts@[k].1@[m],
                    )
            },
{
    let all = visits(simulations);
    let address = simulations[i].accounts@[k].0@;
    let items = simulations[i].accounts@[k].1@;
    assert(visits_at(simulations, i, k, address));
    lemma_visits_at(simulations, address);
    law_merged_accounts(list.accounts@, all);
    assert(has_key(list.accounts@, address));
    let j = choose|j: int|
        0 <= j < list.accounts@.len() && (#[trigger] list.accounts@[j]).spec_key() == address;
    let account = list.accounts@[j];
    law_listed_account_was_visited(list, head, simulations, j);
    let own = visits_to(all, address);
    assert(is_account_merge(account.tx_index, account.storage_items@, own));
    let places = lemma_places(simulations, address);
    let accesses = slot_accesses(own);
    assert forall|m: int| 0 <= m < items.len() implies lists_access(
        account,
        #[trigger] items[m],
    ) by {
        let p = Place { simulation: i, account: k, slot: m };
        assert(enters(simulations, p, address));
        let x = choose|x: int| 0 <= x < places.len() && places[x] == p;
        assert(accesses[x].key == items[m].key@);
        assert(has_key(account.storage_items@, accesses[x].key));
        let s = choose|s: int|
            0 <= s < account.storage_items@.len() && (
            #[trigger] account.storage_items@[s]).spec_key() == accesses[x].key;
        assert(is_merged_slot(account.storage_items@[s], accesses));
        if items[m].dirty {
            assert(writes_key(accesses, items[m].key@, x));
        }
    }
}

/// What a listed slot says of the accesses to it. Its index is the lowest of
/// them, and it is dirty exactly if one of them is a write.
pub proof fn law_listed_slot_was_accessed(
    list: BlockAccessListEncode,
    head: HeadContext,
    simulations: Seq<SimulatedTransaction>,
    j: int,
    s: int,
)
    requires
        is_list_of(list, head, simulations),
        0 <= j < list.accounts@.len(),
        0 <= s < list.accounts@[j].storage_items@.len(),
    ensures
        ({
            let address = list.accounts@[j].address@;
            let slot = list.accounts@[j].storage_items@[s];
            &&& exists|p: Place| #[trigger]
                touches(simulations, p, address, slot.key@) && access_at(simulations, p).tx_index
                    == slot.tx_index
            &&& forall|p: Place| #[trigger]
                touches(simulations, p, address, slot.key@) ==> slot.tx_index <= access_at(
                    simulations,
                    p,
                ).tx_index
            &&& slot.dirty <==> exists|p: Place| #[trigger]
                touches(simulations, p, address, slot.key@) && access_at(simulations, p).dirty
        }),
{
    let address = list.accounts@[j].address@;
    let slot = list.accounts@[j].storage_items@[s];
    let own = visits_to(visits(simulations), address);
    let accesses = slot_accesses(own);
    let places = lemma_places(simulations, address);
    assert(is_account_merge(list.accounts@[j].tx_index, list.accounts@[j].storage_items@, own));
    assert(is_merged_slot(slot, accesses));
    let f = choose|f: int|
        0 <= f < accesses.len() && (#[trigger] accesses[f]).key == slot.key@
            && accesses[f].tx_index == slot.tx_index;
    assert(touches(simulations, places[f], address, slot.key@));
    assert forall|p: Place| #[trigger] touches(simulations, p, address, slot.key@) implies slot.tx_index
        <= access_at(simulations, p).tx_index && (access_at(simulations, p).dirty
        ==> slot.dirty) by {
        let x = lemma_place_found(places, accesses, simulations, address, p);
        assert(accesses[x].key == slot.key@);
        if accesses[x].dirty {
            assert(writes_key(accesses, slot.key@, x));
        }
    }
    if slot.dirty {
        let x = choose|x: int| writes_key(accesses, slot.key@, x);
        assert(touches(simulations, places[x], address, slot.key@));
    }
}

/// The position of a place among all places.
pub proof fn lemma_place_found(
    places: Seq<Place>,
    accesses: Seq<SlotAccess>,
    simulations: Seq<SimulatedTransaction>,
    address: Seq<u8>,
    p: Place,
) -> (x: int)
    requires
        are_places(places, accesses, simulations, simulations.len() as int, 0, address),
        enters(simulations, p, address),
    ensures
        0 <= x < places.len(),
        places[x] == p,
        accesses.len() == places.len(),
        access_at(simulations, p).tx_index == accesses[x].tx_index,
        access_at(simulations, p).dirty == accesses[x].dirty,
        access_at(simulations, p).key@ == accesses[x].key,
        access_at(simulations, p).value@ == accesses[x].value,
{
    assert(comes_within(p, simulations.len() as int, 0));
    assert(places.contains(p));
    choose|x: int| 0 <= x < places.len() && places[x] == p
}

/// The earlier of two places comes first among all places.
pub proof fn lemma_place_order(
    places: Seq<Place>,
    accesses: Seq<SlotAccess>,
    simulations: Seq<SimulatedTransaction>,
    address: Seq<u8>,
    x: int,
    y: int,
)
    requires
        are_places(places, accesses, simulations, simulations.len() as int, 0, address),
        0 <= x < places.len(),
        0 <= y < places.len(),
    ensures
        earlier(places[x], places[y]) <==> x < y,
{
    if x > y {
        assert(earlier(places[y], places[x]));
    } else if x < y {
        assert(earlier(places[x], places[y]));
    }
}

/// The value of a dirty slot is the one that the last transaction to write it
/// wrote, where of two writes in one transaction the first counts. What was only
/// read in the slot does not matter.
pub proof fn law_listed_value_is_the_last_written(
    list: BlockAccessListEncode,
    head: HeadContext,
    simulations: Seq<SimulatedTransaction>,
    j: int,
    s: int,
)
    requires
        is_list_of(list, head, simulations),
        0 <= j < list.accounts@.len(),
        0 <= s < list.accounts@[j].storage_items@.len(),
        list.accounts@[j].storage_items@[s].dirty,
    ensures
        ({
            let address = list.accounts@[j].address@;
            let slot = list.accounts@[j].storage_items@[s];
            exists|p: Place|
                {
                    &&& #[trigger] touches(simulations, p, address, slot.key@)
                    &&& access_at(simulations, p).dirty
                    &&& access_at(simulations, p).value@ == slot.value@
                    &&& forall|q: Place| #[trigger]
                        touches(simulations, q, address, slot.key@) && access_at(
                            simulations,
                            q,
                        ).dirty ==> access_at(simulations, q).tx_index < access_at(
                            simulations,
                            p,
                        ).tx_index || (access_at(simulations, q).tx_index == access_at(
                            simulations,
                            p,
                        ).tx_index && !earlier(q, p))
                }
        }),
{
    let address = list.accounts@[j].address@;
    let slot = list.accounts@[j].storage_items@[s];
    let own = visits_to(visits(simulations), address);
    let accesses = slot_accesses(own);
    let places = lemma_places(simulations, address);
    assert(is_account_merge(list.accounts@[j].tx_index, list.accounts@[j].storage_items@, own));
    assert(is_merged_slot(slot, accesses));
    let x = choose|x: int| #[trigger]
        is_last_write(accesses, slot.key@, x) && accesses[x].value == slot.value@;
    let p = places[x];
    assert(touches(simulations, p, address, slot.key@));
    assert forall|q: Place| #[trigger]
        touches(simulations, q, address, slot.key@) && access_at(simulations, q).dirty implies access_at(
        simulations,
        q,
    ).tx_index < access_at(simulations, p).tx_index || (access_at(simulations, q).tx_index
        == access_at(simulations, p).tx_index && !earlier(q, p)) by {
        let y = lemma_place_found(places, accesses, simulations, address, q);
        assert(writes_key(accesses, slot.key@, y));
        lemma_place_order(places, accesses, simulations, address, y, x);
    }
}

/// Whether the access at a place comes first, or is by a later transaction than
/// one before it.
pub open spec fn replaces(
    simulations: Seq<SimulatedTransaction>,
    p: Place,
    address: Seq<u8>,
    key: Seq<u8>,
) -> bool {
    &&& touches(simulations, p, address, key)
    &&& (forall|q: Place| #[trigger]
        touches(simulations, q, address, key) ==> !earlier(q, p)) || (exists|q: Place| #[trigger]
        touches(simulations, q, address, key) && earlier(q, p) && access_at(
            simulations,
            q,
        ).tx_index < access_at(simulations, p).tx_index)
}

/// The value of a slot that was only read is that of the last access to it that
/// came first or was by a later transaction than one before it.
pub proof fn law_listed_value_is_the_last_read(
    list: BlockAccessListEncode,
    head: HeadContext,
    simulations: Seq<SimulatedTransaction>,
    j: int,
    s: int,
)
    requires
        is_list_of(list, head, simulations),
        0 <= j < list.accounts@.len(),
        0 <= s < list.accounts@[j].storage_items@.len(),
        !list.accounts@[j].storage_items@[s].dirty,
    ensures
        ({
            let address = list.accounts@[j].address@;
            let slot = list.accounts@[j].storage_items@[s];
            exists|p: Place|
                {
                    &&& #[trigger] replaces(simulations, p, address, slot.key@)
                    &&& access_at(simulations, p).value@ == slot.value@
                    &&& forall|q: Place| #[trigger]
                        replaces(simulations, q, address, slot.key@) ==> !earlier(p, q)
                }
        }),
{
    let address = list.accounts@[j].address@;
    let slot = list.accounts@[j].storage_items@[s];
    let key = slot.key@;
    let own = visits_to(visits(simulations), address);
    let accesses = slot_accesses(own);
    let places = lemma_places(simulations, address);
    assert(is_account_merge(list.accounts@[j].tx_index, list.accounts@[j].storage_items@, own));
    assert(is_merged_slot(slot, accesses));
    let x = choose|x: int| #[trigger]
        is_last_taken_over(accesses, key, x) && accesses[x].value == slot.value@;
    assert(is_taken_over(accesses, key, x));
    lemma_replaces(places, accesses, simulations, address, key, x);
    let p = places[x];
    assert forall|q: Place| #[trigger] replaces(simulations, q, address, key) implies !earlier(
        p,
        q,
    ) by {
        assert(touches(simulations, q, address, key));
        let y = lemma_place_found(places, accesses, simulations, address, q);
        lemma_replaces(places, accesses, simulations, address, key, y);
        lemma_place_order(places, accesses, simulations, address, x, y);
    }
}

proof fn lemma_replaces(
    places: Seq<Place>,
    accesses: Seq<SlotAccess>,
    simulations: Seq<SimulatedTransaction>,
    address: Seq<u8>,
    key: Seq<u8>,
    x: int,
)
    requires
        are_places(places, accesses, simulations, simulations.len() as int, 0, address),
        0 <= x < places.len(),
    ensures
        replaces(simulations, places[x], address, key) <==> is_taken_over(accesses, key, x),
{
    let p = places[x];
    if is_taken_over(accesses, key, x) {
        assert(touches(simulations, p, address, key));
        if exists|k: int|
            0 <= k < x && (#[trigger] accesses[k]).key == key && accesses[k].tx_index
                < accesses[x].tx_index {
            let k = choose|k: int|
                0 <= k < x && (#[trigger] accesses[k]).key == key && accesses[k].tx_index
                    < accesses[x].tx_index;
            lemma_place_order(places, accesses, simulations, address, k, x);
            assert(touches(simulations, places[k], address, key));
        } else {
            assert forall|q: Place| #[trigger] touches(simulations, q, address, key) implies !earlier(
                q,
                p,
            ) by {
                let y = lemma_place_found(places, accesses, simulations, address, q);
                lemma_place_order(places, accesses, simulations, address, y, x);
            }
        }
    }
    if replaces(simulations, p, address, key) {
        if exists|q: Place| #[trigger]
            touches(simulations, q, address, key) && earlier(q, p) && access_at(
                simulations,
                q,
            ).tx_index < access_at(simulations, p).tx_index {
            let q = choose|q: Place| #[trigger]
                touches(simulations, q, address, key) && earlier(q, p) && access_at(
                    simulations,
                    q,
                ).tx_index < access_at(simulations, p).tx_index;
            let y = lemma_place_found(places, accesses, simulations, address, q);
            lemma_place_order(places, accesses, simulations, address, y, x);
            assert(accesses[y].key == key);
        } else {
            assert forall|k: int| 0 <= k < x implies (#[trigger] accesses[k]).key != key by {
                lemma_place_order(places, accesses, simulations, address, k, x);
                if accesses[k].key == key {
                    assert(touches(simulations, places[k], address, key));
                }
            }
        }
    }
}

} // verus!
