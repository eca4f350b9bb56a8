//! Where each entry of a list of changes comes from: every write of every
//! simulation is found in the list, and the list holds nothing else.
use vstd::prelude::*;

use crate::changes::BlockChanges;
use crate::merge::{are_changes, is_account_of_changes, slot_accesses, visits, visits_to, Visit};
use crate::merge_laws::lemma_changed_addresses;
use crate::order::{
    has_key, law_order_is_that_of_the_first_difference, lex_lt, precedes, Keyed,
};
use crate::origin_laws::{
    access_at, earlier, lemma_place_found, lemma_place_order, lemma_places, lemma_visits_at, touches,
    visits_at, Place,
};
use crate::slot_merge::{
    are_writes_to, has_write, is_accessed, is_made_by, is_write_by, is_written, writes_key,
};
use crate::trace::SimulatedTransaction;

verus! {

/// The accounts come in ascending order of their addresses, each once.
pub proof fn law_changed_accounts_ascend(
    changes: BlockChanges,
    simulations: Seq<SimulatedTransaction>,
    j: int,
    l: int,
)
    requires
        are_changes(changes.accounts@, visits(simulations)),
        0 <= j < l < changes.accounts@.len(),
    ensures
        precedes(changes.accounts@[j].address@, changes.accounts@[l].address@),
{
    let accounts = changes.accounts@;
    assert(lex_lt(accounts[j].spec_key(), accounts[l].spec_key()));
    law_order_is_that_of_the_first_difference(accounts[j].address@, accounts[l].address@);
}

/// The changed slots of an account come in ascending order of their keys, each
/// once. Each of them has writes, and they come in ascending order of their
/// transactions, each once.
pub proof fn law_changed_slots_ascend(
    changes: BlockChanges,
    simulations: Seq<SimulatedTransaction>,
    j: int,
    c: int,
)
    requires
        are_changes(changes.accounts@, visits(simulations)),
        0 <= j < changes.accounts@.len(),
        0 <= c < changes.accounts@[j].changes@.len(),
    ensures
        forall|d: int|
            0 <= d < c ==> precedes(
                (#[trigger] changes.accounts@[j].changes@[d]).key@,
                changes.accounts@[j].changes@[c].key@,
            ),
        forall|w: int, x: int|
            #![trigger changes.accounts@[j].changes@[c].writes@[w], changes.accounts@[j].changes@[c].writes@[x]]
            0 <= w < x < changes.accounts@[j].changes@[c].writes@.len()
                ==> changes.accounts@[j].changes@[c].writes@[w].tx_index
                < changes.accounts@[j].changes@[c].writes@[x].tx_index,
        changes.accounts@[j].changes@[c].writes@.len() > 0,
{
    let account = changes.accounts@[j];
    let accesses = slot_accesses(visits_to(visits(simulations), account.address@));
    assert(is_account_of_changes(account, visits_to(visits(simulations), account.address@)));
    assert forall|d: int| 0 <= d < c implies precedes(
        (#[trigger] account.changes@[d]).key@,
        account.changes@[c].key@,
    ) by {
        assert(lex_lt(account.changes@[d].spec_key(), account.changes@[c].spec_key()));
        law_order_is_that_of_the_first_difference(
            account.changes@[d].key@,
            account.changes@[c].key@,
        );
    }
    assert(are_writes_to(account.changes@[c].writes@, accesses, account.changes@[c].key@));
}

/// Every account that a simulation visits is listed.
pub proof fn law_every_account_has_its_changes(
    changes: BlockChanges,
    simulations: Seq<SimulatedTransaction>,
    i: int,
    k: int,
)
    requires
        are_changes(changes.accounts@, visits(simulations)),
        0 <= i < simulations.len(),
        0 <= k < simulations[i].accounts@.len(),
    ensures
        exists|j: int|
            0 <= j < changes.accounts@.len() && (#[trigger] changes.accounts@[j]).address@
                == simulations[i].accounts@[k].0@,
{
    let accounts = changes.accounts@;
    let address = simulations[i].accounts@[k].0@;
    lemma_changed_addresses(accounts, visits(simulations));
    lemma_visits_at(simulations, address);
    assert(visits_at(simulations, i, k, address));
    assert(has_key(accounts, address));
    let j = choose|j: int| 0 <= j < accounts.len() && (#[trigger] accounts[j]).spec_key() == address;
    assert(accounts[j].address@ == address);
}

/// A listed account is visited by one of the simulations.
pub proof fn law_changed_account_was_visited(
    changes: BlockChanges,
    simulations: Seq<SimulatedTransaction>,
    j: int,
)
    requires
        are_changes(changes.accounts@, visits(simulations)),
        0 <= j < changes.accounts@.len(),
    ensures
        exists|i: int, k: int| visits_at(simulations, i, k, changes.accounts@[j].address@),
{
    let accounts = changes.accounts@;
    let all = visits(simulations);
    let address = accounts[j].address@;
    lemma_changed_addresses(accounts, all);
    lemma_visits_at(simulations, address);
    assert(accounts[j].spec_key() == address);
    assert(has_key(accounts, address));
    let v = choose|v: Visit| #[trigger] all.contains(v) && v.account.address == address;
    assert(all.contains(v) && v.account.address == address);
}

/// Whether a write is listed for the slot `key` of the account at `address`, by
/// the transaction `tx_index`.
pub open spec fn lists_write(
    changes: BlockChanges,
    address: Seq<u8>,
    key: Seq<u8>,
    tx_index: u32,
    j: int,
    c: int,
    w: int,
) -> bool {
    &&& 0 <= j < changes.accounts@.len()
    &&& changes.accounts@[j].address@ == address
    &&& 0 <= c < changes.accounts@[j].changes@.len()
    &&& changes.accounts@[j].changes@[c].key@ == key
    &&& 0 <= w < changes.accounts@[j].changes@[c].writes@.len()
    &&& changes.accounts@[j].changes@[c].writes@[w].tx_index == tx_index
}

/// Every write of every simulation is listed under its account, its slot and its
/// transaction.
pub proof fn law_every_write_is_listed(
    changes: BlockChanges,
    simulations: Seq<SimulatedTransaction>,
    p: Place,
    address: Seq<u8>,
    key: Seq<u8>,
)
    requires
        are_changes(changes.accounts@, visits(simulations)),
        touches(simulations, p, address, key),
        access_at(simulations, p).dirty,
    ensures
        exists|j: int, c: int, w: int| #[trigger]
            lists_write(changes, address, key, access_at(simulations, p).tx_index, j, c, w),
{
    let tx_index = access_at(simulations, p).tx_index;
    law_every_account_has_its_changes(changes, simulations, p.simulation, p.account);
    let j = choose|j: int|
        0 <= j < changes.accounts@.len() && (#[trigger] changes.accounts@[j]).address@ == address;
    let account = changes.accounts@[j];
    let own = visits_to(visits(simulations), address);
    let accesses = slot_accesses(own);
    assert(is_account_of_changes(account, own));
    let places = lemma_places(simulations, address);
    let x = lemma_place_found(places, accesses, simulations, address, p);
    assert(writes_key(accesses, key, x));
    assert(has_key(account.changes@, key));
    let c = choose|c: int|
        0 <= c < account.changes@.len() && (#[trigger] account.changes@[c]).spec_key() == key;
    assert(account.changes@[c].key@ == key);
    let writes = account.changes@[c].writes@;
    assert(are_writes_to(writes, accesses, key));
    assert(has_write(writes, tx_index));
    let w = choose|w: int| 0 <= w < writes.len() && (#[trigger] writes[w]).tx_index == tx_index;
    assert(lists_write(changes, address, key, tx_index, j, c, w));
}

/// A listed write was made by one of the simulations, and its value is the one
/// that was written: the first, if its transaction wrote the slot repeatedly.
pub proof fn law_listed_write_was_made(
    changes: BlockChanges,
    simulations: Seq<SimulatedTransaction>,
    j: int,
    c: int,
    w: int,
)
    requires
        are_changes(changes.accounts@, visits(simulations)),
        0 <= j < changes.accounts@.len(),
        0 <= c < changes.accounts@[j].changes@.len(),
        0 <= w < changes.accounts@[j].changes@[c].writes@.len(),
    ensures
        ({
            let address = changes.accounts@[j].address@;
            let key = changes.accounts@[j].changes@[c].key@;
            let write = changes.accounts@[j].changes@[c].writes@[w];
            exists|p: Place|
                {
                    &&& #[trigger] touches(simulations, p, address, key)
                    &&& access_at(simulations, p).dirty
                    &&& access_at(simulations, p).tx_index == write.tx_index
                    &&& access_at(simulations, p).value@ == write.value@
                    &&& forall|q: Place| #[trigger]
                        touches(simulations, q, address, key) && access_at(simulations, q).dirty
                            && access_at(simulations, q).tx_index == write.tx_index ==> !earlier(
                            q,
                            p,
                        )
                }
        }),
{
    let account = changes.accounts@[j];
    let address = account.address@;
    let key = account.changes@[c].key@;
    let write = account.changes@[c].writes@[w];
    let own = visits_to(visits(simulations), address);
    let accesses = slot_accesses(own);
    assert(is_account_of_changes(account, own));
    let places = lemma_places(simulations, address);
    assert(are_writes_to(account.changes@[c].writes@, accesses, key));
    assert(is_made_by(write, accesses, key));
    let x = choose|x: int| #[trigger]
        is_write_by(accesses, key, write.tx_index, x) && accesses[x].value == write.value@;
    assert(writes_key(accesses, key, x));
    let p = places[x];
    assert(touches(simulations, p, address, key));
    assert forall|q: Place| #[trigger]
        touches(simulations, q, address, key) && access_at(simulations, q).dirty && access_at(
            simulations,
            q,
        ).tx_index == write.tx_index implies !earlier(q, p) by {
        let y = lemma_place_found(places, accesses, simulations, address, q);
        assert(writes_key(accesses, key, y));
        lemma_place_order(places, accesses, simulations, address, y, x);
    }
}

/// A slot that is listed as read is accessed, and no access to it is a write.
pub proof fn law_listed_read_was_no_write(
    changes: BlockChanges,
    simulations: Seq<SimulatedTransaction>,
    j: int,
    r: int,
)
    requires
        are_changes(changes.accounts@, visits(simulations)),
        0 <= j < changes.accounts@.len(),
        0 <= r < changes.accounts@[j].reads@.len(),
    ensures
        ({
            let address = changes.accounts@[j].address@;
            let key = changes.accounts@[j].reads@[r]@;
            &&& exists|p: Place| touches(simulations, p, address, key)
            &&& forall|p: Place| #[trigger]
                touches(simulations, p, address, key) ==> !access_at(simulations, p).dirty
        }),
        forall|t: int|
            0 <= t < r ==> precedes(
                (#[trigger] changes.accounts@[j].reads@[t])@,
                changes.accounts@[j].reads@[r]@,
            ),
{
    let account = changes.accounts@[j];
    let address = account.address@;
    let reads = account.reads@;
    let key = reads[r]@;
    let own = visits_to(visits(simulations), address);
    let accesses = slot_accesses(own);
    assert(is_account_of_changes(account, own));
    let places = lemma_places(simulations, address);
    assert(reads[r].spec_key() == key);
    assert(has_key(reads, key));
    let x = choose|x: int| 0 <= x < accesses.len() && (#[trigger] accesses[x]).key == key;
    assert(touches(simulations, places[x], address, key));
    assert forall|p: Place| #[trigger] touches(simulations, p, address, key) implies !access_at(
        simulations,
        p,
    ).dirty by {
        let y = lemma_place_found(places, accesses, simulations, address, p);
        if accesses[y].dirty {
            assert(writes_key(accesses, key, y));
        }
    }
    assert forall|t: int| 0 <= t < r implies precedes((#[trigger] reads[t])@, key) by {
        assert(lex_lt(reads[t].spec_key(), reads[r].spec_key()));
        law_order_is_that_of_the_first_difference(reads[t]@, key);
    }
}

/// Every slot that is accessed and that no access writes is listed as read.
pub proof fn law_every_read_is_listed(
    changes: BlockChanges,
    simulations: Seq<SimulatedTransaction>,
    p: Place,
    address: Seq<u8>,
    key: Seq<u8>,
)
    requires
        are_changes(changes.accounts@, visits(simulations)),
        touches(simulations, p, address, key),
        forall|q: Place| #[trigger]
            touches(simulations, q, address, key) ==> !access_at(simulations, q).dirty,
    ensures
        exists|j: int, r: int|
            0 <= j < changes.accounts@.len() && changes.accounts@[j].address@ == address && 0 <= r
                < changes.accounts@[j].reads@.len() && (#[trigger] changes.accounts@[j].reads@[r])@
                == key,
{
    law_every_account_has_its_changes(changes, simulations, p.simulation, p.account);
    let j = choose|j: int|
        0 <= j < changes.accounts@.len() && (#[trigger] changes.accounts@[j]).address@ == address;
    let account = changes.accounts@[j];
    let reads = account.reads@;
    let own = visits_to(visits(simulations), address);
    let accesses = slot_accesses(own);
    assert(is_account_of_changes(account, own));
    let places = lemma_places(simulations, address);
    let x = lemma_place_found(places, accesses, simulations, address, p);
    assert(is_accessed(accesses, key)) by {
        assert(accesses[x].key == key);
    }
    if is_written(accesses, key) {
        let y = choose|y: int| writes_key(accesses, key, y);
        assert(touches(simulations, places[y], address, key));
    }
    assert(has_key(reads, key));
    let r = choose|r: int| 0 <= r < reads.len() && (#[trigger] reads[r]).spec_key() == key;
    assert(changes.accounts@[j].reads@[r]@ == key);
}

} // verus!
