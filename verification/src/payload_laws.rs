//! What a BEP-592 payload says of the access list that was written.
//!
//! Length fields have room for 32 bits, so an encoding that is 4 GiB or longer
//! does not say where it ends. An access list can be told from its payload all
//! the same: the first byte of a slot is never that of an account, and the
//! accounts are the last part of the list. Only the signature, which has no
//! such mark at its end, must be shorter than that.
use vstd::prelude::*;

use crate::access_laws::{
    law_bep592_payload_ignores_values, same_accesses, same_account, same_slot,
};
use crate::access_list::{
    flag, AccountAccessListEncode, BlockAccessListEncode, StorageAccessItem,
};
use crate::rlp_item::{
    be_bytes, encode, encode_all, encode_list, lemma_be_bytes_injective, lemma_list_first_byte,
    lemma_list_prefix, lemma_prefix_free, lemma_str_prefix, lemma_three, lemma_uint_len,
    lemma_whole_list, length_limit, payload, uint_item, RlpItem,
};

verus! {

spec fn slot_items(slots: Seq<StorageAccessItem>) -> Seq<RlpItem> {
    slots.map_values(|i: StorageAccessItem| i.bep592_item())
}

spec fn account_items(accounts: Seq<AccountAccessListEncode>) -> Seq<RlpItem> {
    accounts.map_values(|a: AccountAccessListEncode| a.bep592_item())
}

/// Whether bytes are empty or begin as no slot does.
spec fn ends_slots(bytes: Seq<u8>) -> bool {
    bytes.len() == 0 || bytes[0] <= 0xdb || bytes[0] >= 0xf7
}

proof fn lemma_slot_bytes(item: StorageAccessItem)
    ensures
        36 <= encode(item.bep592_item()).len() <= 40,
        0xe3 <= encode(item.bep592_item())[0] <= 0xe7,
{
    let items = item.bep592_item()->List_0;
    lemma_three(items);
    lemma_uint_len(item.tx_index as nat);
    lemma_flag_len(item.dirty);
    let body = encode_all(items);
    assert(encode(items[2]).len() == 33);
    assert(35 <= body.len() <= 39);
    lemma_list_first_byte(body);
}

proof fn lemma_flag_len(dirty: bool)
    ensures
        encode(uint_item(flag(dirty))).len() == 1,
{
    reveal_with_fuel(be_bytes, 3);
}

/// The slots at the front of two byte strings are the same.
proof fn lemma_same_slots(
    x: Seq<StorageAccessItem>,
    y: Seq<StorageAccessItem>,
    s: Seq<u8>,
    t: Seq<u8>,
)
    requires
        encode_all(slot_items(x)) + s == encode_all(slot_items(y)) + t,
        ends_slots(s),
        ends_slots(t),
    ensures
        x.len() == y.len(),
        forall|i: int|
            #![trigger x[i]]
            #![trigger y[i]]
            0 <= i < x.len() ==> same_slot(x[i], y[i]),
        s == t,
    decreases x.len(),
{
    let p = slot_items(x);
    let q = slot_items(y);
    if x.len() == 0 && y.len() == 0 {
        assert(encode_all(p) + s =~= s);
        assert(encode_all(q) + t =~= t);
    } else if x.len() == 0 {
        lemma_slots_begin(y, t);
        assert(encode_all(p) + s =~= s);
    } else if y.len() == 0 {
        lemma_slots_begin(x, s);
        assert(encode_all(q) + t =~= t);
    } else {
        let u = x.subrange(1, x.len() as int);
        let v = y.subrange(1, y.len() as int);
        assert(p.subrange(1, p.len() as int) =~= slot_items(u));
        assert(q.subrange(1, q.len() as int) =~= slot_items(v));
        let rest = encode_all(slot_items(u)) + s;
        let other = encode_all(slot_items(v)) + t;
        assert(encode_all(p) + s =~= encode(p[0]) + rest);
        assert(encode_all(q) + t =~= encode(q[0]) + other);
        lemma_slot_bytes(x[0]);
        lemma_slot_bytes(y[0]);
        lemma_prefix_free(p[0], q[0], rest, other);
        lemma_same_slot(x[0], y[0]);
        lemma_same_slots(u, v, s, t);
        assert forall|i: int|
            #![trigger x[i]]
            #![trigger y[i]]
            0 <= i < x.len() implies same_slot(x[i], y[i]) by {
            if i > 0 {
                assert(x[i] == u[i - 1] && y[i] == v[i - 1]);
            }
        }
    }
}

proof fn lemma_same_slot(a: StorageAccessItem, b: StorageAccessItem)
    requires
        a.bep592_item() == b.bep592_item(),
    ensures
        same_slot(a, b),
{
    let x = a.bep592_item()->List_0;
    let y = b.bep592_item()->List_0;
    assert(x[0] == y[0] && x[1] == y[1] && x[2] == y[2]);
    lemma_be_bytes_injective(a.tx_index as nat, b.tx_index as nat);
    lemma_be_bytes_injective(flag(a.dirty), flag(b.dirty));
}

/// What begins with a slot does not begin as the end of slots.
proof fn lemma_slots_begin(x: Seq<StorageAccessItem>, s: Seq<u8>)
    requires
        x.len() > 0,
    ensures
        !ends_slots(encode_all(slot_items(x)) + s),
{
    lemma_slot_bytes(x[0]);
    assert(slot_items(x)[0] == x[0].bep592_item());
    assert((encode_all(slot_items(x)) + s)[0] == encode(x[0].bep592_item())[0]);
}

/// The slots of an account have the short form if there is at most one, and
/// their first byte tells.
proof fn lemma_slots_form(x: Seq<StorageAccessItem>)
    ensures
        ({
            let body = encode_all(slot_items(x));
            let first = encode_list(body)[0];
            &&& x.len() == 0 ==> body.len() == 0
            &&& x.len() > 0 ==> body.len() >= 36
            &&& encode_list(body).len() > body.len()
            &&& body.len() <= 55 ==> first <= 0xe8
            &&& body.len() > 55 ==> first >= 0xf7
        }),
{
    let items = slot_items(x);
    let body = encode_all(items);
    lemma_list_first_byte(body);
    if x.len() > 0 {
        lemma_slot_bytes(x[0]);
        let rest = items.subrange(1, items.len() as int);
        assert(body.len() == encode(items[0]).len() + encode_all(rest).len());
        if x.len() == 1 {
            assert(rest.len() == 0);
            assert(encode_all(rest).len() == 0);
        } else {
            lemma_slot_bytes(x[1]);
            assert(rest[0] == x[1].bep592_item());
            assert(encode_all(rest).len() >= encode(rest[0]).len());
        }
    }
}

spec fn account_parts(account: AccountAccessListEncode) -> Seq<u8> {
    encode_all(account.bep592_item()->List_0)
}

/// An account begins as no slot does, and its first byte tells its form.
proof fn lemma_account_bytes(account: AccountAccessListEncode)
    ensures
        encode(account.bep592_item()).len() > 0,
        account_parts(account).len() <= 55 ==> encode(account.bep592_item())[0] <= 0xdb,
        account_parts(account).len() > 55 ==> encode(account.bep592_item())[0] >= 0xf7,
        account_parts(account) == encode(uint_item(account.tx_index as nat)) + (encode(
            RlpItem::Str(account.address@),
        ) + encode_list(encode_all(slot_items(account.storage_items@)))),
{
    let items = account.bep592_item()->List_0;
    lemma_three(items);
    lemma_uint_len(account.tx_index as nat);
    lemma_slots_form(account.storage_items@);
    assert(items[2]->List_0 =~= slot_items(account.storage_items@));
    assert(encode(items[1]).len() == 21);
    lemma_list_first_byte(account_parts(account));
}

/// The accounts at the front of two byte strings are the same, and so is what
/// follows them.
proof fn lemma_same_front_account(
    a: AccountAccessListEncode,
    b: AccountAccessListEncode,
    s: Seq<u8>,
    t: Seq<u8>,
)
    requires
        encode(a.bep592_item()) + s == encode(b.bep592_item()) + t,
        ends_slots(s),
        ends_slots(t),
    ensures
        same_account(a, b),
        s == t,
{
    let p = account_parts(a);
    let q = account_parts(b);
    lemma_account_bytes(a);
    lemma_account_bytes(b);
    let all = encode(a.bep592_item()) + s;
    assert(all[0] == encode(a.bep592_item())[0]);
    assert(all[0] == encode(b.bep592_item())[0]);
    lemma_list_prefix(p, q, s, t);
    let m = encode_all(slot_items(a.storage_items@));
    let n = encode_all(slot_items(b.storage_items@));
    let x = encode(RlpItem::Str(a.address@)) + encode_list(m);
    let y = encode(RlpItem::Str(b.address@)) + encode_list(n);
    assert(p + s =~= encode(uint_item(a.tx_index as nat)) + (x + s));
    assert(q + t =~= encode(uint_item(b.tx_index as nat)) + (y + t));
    lemma_number_fits(a.tx_index as nat);
    lemma_number_fits(b.tx_index as nat);
    lemma_prefix_free(
        uint_item(a.tx_index as nat),
        uint_item(b.tx_index as nat),
        x + s,
        y + t,
    );
    lemma_be_bytes_injective(a.tx_index as nat, b.tx_index as nat);
    assert(x + s =~= encode(RlpItem::Str(a.address@)) + (encode_list(m) + s));
    assert(y + t =~= encode(RlpItem::Str(b.address@)) + (encode_list(n) + t));
    lemma_str_prefix(a.address@, b.address@, encode_list(m) + s, encode_list(n) + t);
    lemma_slots_form(a.storage_items@);
    lemma_slots_form(b.storage_items@);
    assert((encode_list(m) + s)[0] == encode_list(m)[0]);
    assert((encode_list(n) + t)[0] == encode_list(n)[0]);
    lemma_list_prefix(m, n, s, t);
    lemma_same_slots(a.storage_items@, b.storage_items@, s, t);
}

/// The accounts of two equal payloads are the same.
proof fn lemma_same_accounts(
    x: Seq<AccountAccessListEncode>,
    y: Seq<AccountAccessListEncode>,
)
    requires
        encode_all(account_items(x)) == encode_all(account_items(y)),
    ensures
        x.len() == y.len(),
        forall|i: int|
            #![trigger x[i]]
            #![trigger y[i]]
            0 <= i < x.len() ==> same_account(x[i], y[i]),
    decreases x.len(),
{
    let p = account_items(x);
    let q = account_items(y);
    lemma_accounts_end_slots(x);
    lemma_accounts_end_slots(y);
    if x.len() > 0 && y.len() > 0 {
        let u = x.subrange(1, x.len() as int);
        let v = y.subrange(1, y.len() as int);
        assert(p.subrange(1, p.len() as int) =~= account_items(u));
        assert(q.subrange(1, q.len() as int) =~= account_items(v));
        lemma_accounts_end_slots(u);
        lemma_accounts_end_slots(v);
        lemma_same_front_account(
            x[0],
            y[0],
            encode_all(account_items(u)),
            encode_all(account_items(v)),
        );
        lemma_same_accounts(u, v);
        assert forall|i: int|
            #![trigger x[i]]
            #![trigger y[i]]
            0 <= i < x.len() implies same_account(x[i], y[i]) by {
            if i > 0 {
                assert(x[i] == u[i - 1] && y[i] == v[i - 1]);
            }
        }
    }
}

proof fn lemma_accounts_end_slots(x: Seq<AccountAccessListEncode>)
    ensures
        ends_slots(encode_all(account_items(x))),
        x.len() > 0 <==> encode_all(account_items(x)).len() > 0,
{
    if x.len() > 0 {
        lemma_account_bytes(x[0]);
        assert(account_items(x)[0] == x[0].bep592_item());
        assert(encode_all(account_items(x))[0] == encode(x[0].bep592_item())[0]);
    }
}

proof fn lemma_five(items: Seq<RlpItem>)
    requires
        items.len() == 5,
    ensures
        encode_all(items) == encode(items[0]) + (encode(items[1]) + (encode(items[2]) + (encode(
            items[3],
        ) + encode(items[4])))),
{
    let b = items.subrange(1, 5);
    let c = b.subrange(1, 4);
    lemma_three(c);
    assert(c[0] == items[2] && c[1] == items[3] && c[2] == items[4]);
    assert(encode_all(b) =~= encode(items[1]) + encode_all(c));
}

/// Two access lists have the same BEP-592 payload exactly if they are the same
/// but for the values of their slots: version, number, hash, signature, and
/// the accounts and slots in their order can be told from it, whatever its
/// length. Signatures of different lengths are left out if one is 4 GiB or
/// longer: its length field is cut off, and it can run into the accounts.
pub proof fn law_bep592_payload_determines_accesses(
    a: BlockAccessListEncode,
    b: BlockAccessListEncode,
)
    requires
        a.sign_data@.len() == b.sign_data@.len() || (a.sign_data@.len() < length_limit()
            && b.sign_data@.len() < length_limit()),
    ensures
        encode(a.bep592_item()) == encode(b.bep592_item()) <==> same_accesses(a, b),
{
    if encode(a.bep592_item()) == encode(b.bep592_item()) {
        lemma_same_payload(a, b);
    }
    if same_accesses(a, b) {
        law_bep592_payload_ignores_values(a, b);
    }
}

proof fn lemma_same_payload(a: BlockAccessListEncode, b: BlockAccessListEncode)
    requires
        a.sign_data@.len() == b.sign_data@.len() || (a.sign_data@.len() < length_limit()
            && b.sign_data@.len() < length_limit()),
        encode(a.bep592_item()) == encode(b.bep592_item()),
    ensures
        same_accesses(a, b),
{
    let x = a.bep592_item()->List_0;
    let y = b.bep592_item()->List_0;
    lemma_five(x);
    lemma_five(y);
    lemma_whole_list(encode_all(x), encode_all(y));
    lemma_number_fits(a.version as nat);
    lemma_number_fits(b.version as nat);
    lemma_number_fits(a.number as nat);
    lemma_number_fits(b.number as nat);
    let p3 = encode(x[3]) + encode(x[4]);
    let q3 = encode(y[3]) + encode(y[4]);
    let p2 = encode(x[2]) + p3;
    let q2 = encode(y[2]) + q3;
    let p1 = encode(x[1]) + p2;
    let q1 = encode(y[1]) + q2;
    lemma_prefix_free(x[0], y[0], p1, q1);
    lemma_prefix_free(x[1], y[1], p2, q2);
    lemma_str_prefix(a.hash@, b.hash@, p3, q3);
    lemma_str_prefix(a.sign_data@, b.sign_data@, encode(x[4]), encode(y[4]));
    lemma_be_bytes_injective(a.version as nat, b.version as nat);
    lemma_be_bytes_injective(a.number as nat, b.number as nat);
    assert(x[4]->List_0 =~= account_items(a.accounts@));
    assert(y[4]->List_0 =~= account_items(b.accounts@));
    lemma_whole_list(
        encode_all(account_items(a.accounts@)),
        encode_all(account_items(b.accounts@)),
    );
    lemma_same_accounts(a.accounts@, b.accounts@);
}

/// The bytes of a 64-bit number fit in any length field.
proof fn lemma_number_fits(n: nat)
    requires
        n <= u64::MAX,
    ensures
        payload(uint_item(n)).len() < length_limit(),
{
    reveal_with_fuel(be_bytes, 10);
}

} // verus!
