//! What the two formats of an access list say of it.
use vstd::prelude::*;

use crate::access_list::{
    flag, AccountAccessListEncode, BlockAccessListEncode, StorageAccessItem,
};
use crate::order::{ascending, law_sorting, lemma_lex_total, lex_le, sorted_by_key, Keyed};
use crate::rlp_item::{
    encode, law_encoding_is_injective, lemma_be_bytes_injective, length_limit,
};

verus! {

/// Whether two slots are the same but for their values.
pub open spec fn same_slot(a: StorageAccessItem, b: StorageAccessItem) -> bool {
    &&& a.tx_index == b.tx_index
    &&& a.dirty == b.dirty
    &&& a.key@ == b.key@
}

/// Whether two accounts list the same slots but for their values.
pub open spec fn same_account(a: AccountAccessListEncode, b: AccountAccessListEncode) -> bool {
    &&& a.tx_index == b.tx_index
    &&& a.address@ == b.address@
    &&& a.storage_items@.len() == b.storage_items@.len()
    &&& forall|i: int|
        #![trigger a.storage_items@[i]]
        #![trigger b.storage_items@[i]]
        0 <= i < a.storage_items@.len() ==> same_slot(a.storage_items@[i], b.storage_items@[i])
}

/// Whether two access lists are the same but for the values of the slots.
pub open spec fn same_accesses(a: BlockAccessListEncode, b: BlockAccessListEncode) -> bool {
    &&& a.version == b.version
    &&& a.number == b.number
    &&& a.hash@ == b.hash@
    &&& a.sign_data@ == b.sign_data@
    &&& a.accounts@.len() == b.accounts@.len()
    &&& forall|i: int|
        #![trigger a.accounts@[i]]
        #![trigger b.accounts@[i]]
        0 <= i < a.accounts@.len() ==> same_account(a.accounts@[i], b.accounts@[i])
}

proof fn lemma_slot_item(a: StorageAccessItem, b: StorageAccessItem)
    ensures
        a.bep592_item() == b.bep592_item() <==> same_slot(a, b),
{
    let x = a.bep592_item()->List_0;
    let y = b.bep592_item()->List_0;
    if a.bep592_item() == b.bep592_item() {
        assert(x[0] == y[0] && x[1] == y[1] && x[2] == y[2]);
        lemma_be_bytes_injective(a.tx_index as nat, b.tx_index as nat);
        lemma_be_bytes_injective(flag(a.dirty), flag(b.dirty));
    }
    if same_slot(a, b) {
        assert(x =~= y);
    }
}

proof fn lemma_account_item(a: AccountAccessListEncode, b: AccountAccessListEncode)
    ensures
        a.bep592_item() == b.bep592_item() <==> same_account(a, b),
{
    let x = a.bep592_item()->List_0;
    let y = b.bep592_item()->List_0;
    let p = x[2]->List_0;
    let q = y[2]->List_0;
    if a.bep592_item() == b.bep592_item() {
        assert(x[0] == y[0] && x[1] == y[1] && x[2] == y[2]);
        lemma_be_bytes_injective(a.tx_index as nat, b.tx_index as nat);
        assert(p.len() == q.len());
        assert forall|i: int|
            #![trigger a.storage_items@[i]]
            #![trigger b.storage_items@[i]]
            0 <= i < a.storage_items@.len() implies same_slot(
            a.storage_items@[i],
            b.storage_items@[i],
        ) by {
            assert(p[i] == q[i]);
            lemma_slot_item(a.storage_items@[i], b.storage_items@[i]);
        }
    }
    if same_account(a, b) {
        assert forall|i: int| 0 <= i < p.len() implies p[i] == q[i] by {
            lemma_slot_item(a.storage_items@[i], b.storage_items@[i]);
        }
        assert(p =~= q);
        assert(x =~= y);
    }
}

proof fn lemma_block_item(a: BlockAccessListEncode, b: BlockAccessListEncode)
    ensures
        a.bep592_item() == b.bep592_item() <==> same_accesses(a, b),
{
    let x = a.bep592_item()->List_0;
    let y = b.bep592_item()->List_0;
    let p = x[4]->List_0;
    let q = y[4]->List_0;
    if a.bep592_item() == b.bep592_item() {
        assert(x[0] == y[0] && x[1] == y[1] && x[2] == y[2] && x[3] == y[3] && x[4] == y[4]);
        lemma_be_bytes_injective(a.version as nat, b.version as nat);
        lemma_be_bytes_injective(a.number as nat, b.number as nat);
        assert(p.len() == q.len());
        assert forall|i: int|
            #![trigger a.accounts@[i]]
            #![trigger b.accounts@[i]]
            0 <= i < a.accounts@.len() implies same_account(a.accounts@[i], b.accounts@[i]) by {
            assert(p[i] == q[i]);
            lemma_account_item(a.accounts@[i], b.accounts@[i]);
        }
    }
    if same_accesses(a, b) {
        assert forall|i: int| 0 <= i < p.len() implies p[i] == q[i] by {
            lemma_account_item(a.accounts@[i], b.accounts@[i]);
        }
        assert(p =~= q);
        assert(x =~= y);
    }
}

/// Whether two written slots have the same key, the same value, and indices
/// that agree in 16 bits.
pub open spec fn same_change(a: StorageAccessItem, b: StorageAccessItem) -> bool {
    &&& a.key@ == b.key@
    &&& a.value@ == b.value@
    &&& a.tx_index as nat % 0x1_0000 == b.tx_index as nat % 0x1_0000
}

/// Whether two accounts have the same address, the same changes and the same
/// reads.
pub open spec fn same_effects(a: AccountAccessListEncode, b: AccountAccessListEncode) -> bool {
    &&& a.address@ == b.address@
    &&& a.changes().len() == b.changes().len()
    &&& forall|i: int|
        #![trigger a.changes()[i]]
        #![trigger b.changes()[i]]
        0 <= i < a.changes().len() ==> same_change(a.changes()[i], b.changes()[i])
    &&& a.reads().len() == b.reads().len()
    &&& forall|i: int|
        #![trigger a.reads()[i]]
        #![trigger b.reads()[i]]
        0 <= i < a.reads().len() ==> a.reads()[i].key@ == b.reads()[i].key@
}

proof fn lemma_change_item(a: StorageAccessItem, b: StorageAccessItem, first: nat)
    requires
        a.change_item(first) == b.change_item(first),
    ensures
        same_change(a, b),
{
    let x = a.change_item(first)->List_0;
    let y = b.change_item(first)->List_0;
    assert(x[0] == y[0] && x[1] == y[1]);
    let p = x[1]->List_0[0]->List_0;
    let q = y[1]->List_0[0]->List_0;
    assert(x[1]->List_0[0] == y[1]->List_0[0]);
    assert(p[0] == q[0] && p[1] == q[1]);
    lemma_be_bytes_injective(
        (a.tx_index as nat + first) % 0x1_0000,
        (b.tx_index as nat + first) % 0x1_0000,
    );
}

proof fn lemma_effects_item(a: AccountAccessListEncode, b: AccountAccessListEncode, first: nat)
    requires
        a.eip7928_item_from(first) == b.eip7928_item_from(first),
    ensures
        same_effects(a, b),
{
    let x = a.eip7928_item_from(first)->List_0;
    let y = b.eip7928_item_from(first)->List_0;
    assert(x[0] == y[0] && x[1] == y[1] && x[2] == y[2]);
    let changes = x[1]->List_0;
    let reads = x[2]->List_0;
    assert(changes.len() == a.changes().len() && changes.len() == b.changes().len());
    assert(reads.len() == a.reads().len() && reads.len() == b.reads().len());
    assert forall|i: int|
        #![trigger a.changes()[i]]
        #![trigger b.changes()[i]]
        0 <= i < a.changes().len() implies same_change(a.changes()[i], b.changes()[i]) by {
        assert(changes[i] == a.changes()[i].change_item(first));
        assert(y[1]->List_0[i] == b.changes()[i].change_item(first));
        lemma_change_item(a.changes()[i], b.changes()[i], first);
    }
    assert forall|i: int|
        #![trigger a.reads()[i]]
        #![trigger b.reads()[i]]
        0 <= i < a.reads().len() implies a.reads()[i].key@ == b.reads()[i].key@ by {
        assert(reads[i] == a.reads()[i].read_item());
        assert(y[2]->List_0[i] == b.reads()[i].read_item());
    }
}

/// An EIP-7928 list determines, of every account, the address, the written
/// slots with their values and 16 bits of their indices, and the slots that
/// were only read. A list of 4 GiB or more is left out: its length fields are
/// cut off.
pub proof fn law_eip7928_list_determines_effects(
    a: BlockAccessListEncode,
    b: BlockAccessListEncode,
    first: nat,
)
    requires
        encode(a.eip7928_item_from(first)) == encode(b.eip7928_item_from(first)),
        encode(a.eip7928_item_from(first)).len() < length_limit(),
    ensures
        sorted_by_key(a.accounts@).len() == sorted_by_key(b.accounts@).len(),
        forall|i: int|
            0 <= i < sorted_by_key(a.accounts@).len() ==> same_effects(
                #[trigger] sorted_by_key(a.accounts@)[i],
                sorted_by_key(b.accounts@)[i],
            ),
{
    law_encoding_is_injective(a.eip7928_item_from(first), b.eip7928_item_from(first));
    let s = sorted_by_key(a.accounts@);
    let t = sorted_by_key(b.accounts@);
    let x = a.eip7928_item_from(first)->List_0;
    let y = b.eip7928_item_from(first)->List_0;
    assert(x.len() == s.len() && y.len() == t.len());
    assert forall|i: int| 0 <= i < s.len() implies same_effects(#[trigger] s[i], t[i]) by {
        assert(x[i] == s[i].eip7928_item_from(first));
        assert(y[i] == t[i].eip7928_item_from(first));
        lemma_effects_item(s[i], t[i], first);
    }
}

/// The values of the slots have no influence on the BEP-592 payload.
pub proof fn law_bep592_payload_ignores_values(
    a: BlockAccessListEncode,
    b: BlockAccessListEncode,
)
    requires
        same_accesses(a, b),
    ensures
        encode(a.bep592_item()) == encode(b.bep592_item()),
{
    lemma_block_item(a, b);
}

/// Whether no two elements have the same key.
pub open spec fn distinct_keys<T: Keyed>(s: Seq<T>) -> bool {
    forall|i: int, j: int|
        #![trigger s[i], s[j]]
        0 <= i < j < s.len() ==> s[i].spec_key() != s[j].spec_key()
}

proof fn lemma_distinct_kept<T: Keyed>(s: Seq<T>, t: Seq<T>)
    requires
        distinct_keys(s),
        s.to_multiset() == t.to_multiset(),
    ensures
        distinct_keys(t),
{
    broadcast use vstd::seq_lib::group_to_multiset_ensures;
    assert forall|i: int, j: int| #![trigger t[i], t[j]] 0 <= i < j < t.len() implies t[i].spec_key()
        != t[j].spec_key() by {
        if t[i].spec_key() == t[j].spec_key() {
            assert(t.contains(t[i]) && t.contains(t[j]));
            assert(s.to_multiset().count(t[i]) > 0);
            assert(s.to_multiset().count(t[j]) > 0);
            let k = choose|k: int| 0 <= k < s.len() && s[k] == t[i];
            let l = choose|l: int| 0 <= l < s.len() && s[l] == t[j];
            if k == l {
                assert(t[i] == t[j]);
                lemma_two_places(t, i, j);
                lemma_one_place(s, k);
            }
        }
    }
}

proof fn lemma_two_places<T>(t: Seq<T>, i: int, j: int)
    requires
        0 <= i < j < t.len(),
        t[i] == t[j],
    ensures
        t.to_multiset().count(t[i]) >= 2,
{
    broadcast use vstd::seq_lib::group_to_multiset_ensures;
    let rest = t.remove(j);
    assert(rest[i] == t[i]);
    assert(rest.contains(t[i]));
    rest.to_multiset_ensures();
    t.to_multiset_ensures();
    assert(rest.to_multiset().count(t[i]) > 0);
    assert(t.contains(t[j]));
    assert(rest.to_multiset() =~= t.to_multiset().remove(t[j]));
}

proof fn lemma_one_place<T: Keyed>(s: Seq<T>, k: int)
    requires
        0 <= k < s.len(),
        distinct_keys(s),
    ensures
        s.to_multiset().count(s[k]) <= 1,
{
    broadcast use vstd::seq_lib::group_to_multiset_ensures;
    let rest = s.remove(k);
    rest.to_multiset_ensures();
    s.to_multiset_ensures();
    assert(s.contains(s[k]));
    assert(rest.to_multiset() =~= s.to_multiset().remove(s[k]));
    assert(rest.to_multiset().count(s[k]) == s.to_multiset().count(s[k]) - 1);
    if rest.contains(s[k]) {
        let l = choose|l: int| 0 <= l < rest.len() && rest[l] == s[k];
        if l < k {
            assert(s[l] == s[k]);
        } else {
            assert(s[l + 1] == s[k]);
        }
    }
}

/// There is one ascending order of elements whose keys are distinct.
proof fn lemma_ascending_unique<T: Keyed>(s: Seq<T>, t: Seq<T>)
    requires
        ascending(s),
        ascending(t),
        distinct_keys(s),
        s.to_multiset() == t.to_multiset(),
    ensures
        s == t,
    decreases s.len(),
{
    broadcast use vstd::seq_lib::group_to_multiset_ensures;
    lemma_distinct_kept(s, t);
    assert(s.len() == t.len()) by {
        s.to_multiset_ensures();
        t.to_multiset_ensures();
    }
    if s.len() == 0 {
        assert(s =~= t);
    } else {
        let n = s.len() - 1;
        let x = s[n];
        let y = t[n];
        assert(s.contains(x) && t.contains(y));
        assert(t.to_multiset().count(x) > 0);
        assert(s.to_multiset().count(y) > 0);
        let k = choose|k: int| 0 <= k < t.len() && t[k] == x;
        let l = choose|l: int| 0 <= l < s.len() && s[l] == y;
        assert(lex_le(t[k].spec_key(), t[n].spec_key()));
        assert(lex_le(s[l].spec_key(), s[n].spec_key()));
        lemma_lex_total(x.spec_key(), y.spec_key());
        assert(s[l].spec_key() == s[n].spec_key());
        assert(x == y);
        let front = s.drop_last();
        let other = t.drop_last();
        assert(s =~= front.push(x));
        assert(t =~= other.push(x));
        assert(front.to_multiset() =~= s.to_multiset().remove(x));
        assert(other.to_multiset() =~= t.to_multiset().remove(x));
        assert forall|i: int, j: int| #![trigger front[i], front[j]] 0 <= i <= j < front.len() implies lex_le(
            front[i].spec_key(),
            front[j].spec_key(),
        ) by {
            assert(front[i] == s[i] && front[j] == s[j]);
        }
        assert forall|i: int, j: int| #![trigger other[i], other[j]] 0 <= i <= j < other.len() implies lex_le(
            other[i].spec_key(),
            other[j].spec_key(),
        ) by {
            assert(other[i] == t[i] && other[j] == t[j]);
        }
        assert forall|i: int, j: int| #![trigger front[i], front[j]] 0 <= i < j < front.len() implies front[i].spec_key()
            != front[j].spec_key() by {
            assert(front[i] == s[i] && front[j] == s[j]);
        }
        lemma_ascending_unique(front, other);
    }
}

/// Elements with distinct keys come out of sorting in the same order, whatever
/// order they came in.
pub proof fn law_sorting_ignores_order<T: Keyed>(s: Seq<T>, t: Seq<T>)
    requires
        s.to_multiset() == t.to_multiset(),
        distinct_keys(s),
    ensures
        sorted_by_key(s) == sorted_by_key(t),
{
    law_sorting(s);
    law_sorting(t);
    lemma_distinct_kept(s, sorted_by_key(s));
    lemma_ascending_unique(sorted_by_key(s), sorted_by_key(t));
}

/// The EIP-7928 list does not depend on the order of the accounts, as long as
/// no address occurs twice.
pub proof fn law_eip7928_ignores_account_order(
    a: BlockAccessListEncode,
    b: BlockAccessListEncode,
    first: nat,
)
    requires
        a.accounts@.to_multiset() == b.accounts@.to_multiset(),
        distinct_keys(a.accounts@),
    ensures
        encode(a.eip7928_item_from(first)) == encode(b.eip7928_item_from(first)),
{
    law_sorting_ignores_order(a.accounts@, b.accounts@);
}

/// What EIP-7928 lists of an account does not depend on the order of its
/// slots, as long as no slot occurs twice.
pub proof fn law_eip7928_ignores_slot_order(
    a: AccountAccessListEncode,
    b: AccountAccessListEncode,
    first: nat,
)
    requires
        a.address@ == b.address@,
        a.storage_items@.to_multiset() == b.storage_items@.to_multiset(),
        distinct_keys(a.storage_items@),
    ensures
        a.eip7928_item_from(first) == b.eip7928_item_from(first),
{
    law_sorting_ignores_order(a.storage_items@, b.storage_items@);
    assert(a.eip7928_item_from(first)->List_0 =~= b.eip7928_item_from(first)->List_0);
}

} // verus!
