//! The storage changes of a block, transaction by transaction, as EIP-7928
//! lists them.
use vstd::prelude::*;

use crate::access_list::write_no_changes;
use crate::order::Keyed;
use crate::rlp_item::{encode, uint_item, RlpItem};
use crate::rlp_stream::{filling, put, stream_levels};
use crate::rlp_stream::{lemma_list_closed, lemma_list_item, lemma_list_opened, lemma_output};
use crate::rlp_stream::{
    stream_append_bytes, stream_append_uint, stream_begin_list, stream_new, stream_out,
};

verus! {

/// What one transaction writes to a slot.
#[derive(Debug, Clone, Copy)]
pub struct SlotWrite {
    pub tx_index: u32,
    pub value: [u8; 32],
}

/// A slot with all writes to it.
#[derive(Debug)]
pub struct SlotChanges {
    pub key: [u8; 32],
    pub writes: Vec<SlotWrite>,
}

/// An account with the slots in it that are written, and those that are only
/// read.
#[derive(Debug)]
pub struct AccountChanges {
    pub address: [u8; 20],
    pub changes: Vec<SlotChanges>,
    pub reads: Vec<[u8; 32]>,
}

/// The accounts that the transactions of a block access.
#[derive(Debug)]
pub struct BlockChanges {
    pub accounts: Vec<AccountChanges>,
}

impl Keyed for SlotChanges {
    open spec fn spec_key(&self) -> Seq<u8> {
        self.key@
    }

    fn key(&self) -> (res: &[u8]) {
        self.key.as_slice()
    }
}

impl Keyed for AccountChanges {
    open spec fn spec_key(&self) -> Seq<u8> {
        self.address@
    }

    fn key(&self) -> (res: &[u8]) {
        self.address.as_slice()
    }
}

impl Keyed for [u8; 32] {
    open spec fn spec_key(&self) -> Seq<u8> {
        self@
    }

    fn key(&self) -> (res: &[u8]) {
        self.as_slice()
    }
}

impl SlotWrite {
    /// The write as it is listed: `[index, value]`, where the transactions are
    /// counted from `first` and 16 bits of the index stay.
    pub open spec fn item_from(self, first: nat) -> RlpItem {
        RlpItem::List(
            seq![
                uint_item((self.tx_index as nat + first) % 0x1_0000),
                RlpItem::Str(self.value@),
            ],
        )
    }
}

impl SlotChanges {
    /// The slot as it is listed: `[key, writes]`.
    pub open spec fn item_from(self, first: nat) -> RlpItem {
        RlpItem::List(
            seq![
                RlpItem::Str(self.key@),
                RlpItem::List(self.writes@.map_values(|w: SlotWrite| w.item_from(first))),
            ],
        )
    }
}

impl AccountChanges {
    /// The account as it is listed: the address, the changed slots, the keys of
    /// those that are only read, and no balance, nonce or code changes.
    pub open spec fn item_from(self, first: nat) -> RlpItem {
        RlpItem::List(
            seq![
                RlpItem::Str(self.address@),
                RlpItem::List(self.changes@.map_values(|s: SlotChanges| s.item_from(first))),
                RlpItem::List(self.reads@.map_values(|key: [u8; 32]| RlpItem::Str(key@))),
                RlpItem::List(Seq::empty()),
                RlpItem::List(Seq::empty()),
                RlpItem::List(Seq::empty()),
            ],
        )
    }
}

fn write_write(stream: &mut rlp::RlpStream, write: &SlotWrite, first: u16)
    requires
        stream_levels(*old(stream)).len() >= 1,
    ensures
        stream_levels(*final(stream)) == put(
            stream_levels(*old(stream)),
            encode(write.item_from(first as nat)),
        ),
{
    let ghost base = stream_levels(*stream);
    let ghost items = write.item_from(first as nat)->List_0;
    stream_begin_list(stream, 2);
    proof {
        lemma_list_opened(base, items);
    }
    stream_append_uint(stream, (write.tx_index as u64 + first as u64) % 0x1_0000);
    proof {
        lemma_list_item(base, items, 0);
    }
    stream_append_bytes(stream, write.value.as_slice());
    proof {
        lemma_list_item(base, items, 1);
        lemma_list_closed(base, items);
    }
}

fn write_writes(stream: &mut rlp::RlpStream, writes: &Vec<SlotWrite>, first: u16)
    requires
        stream_levels(*old(stream)).len() >= 1,
    ensures
        stream_levels(*final(stream)) == put(
            stream_levels(*old(stream)),
            encode(
                RlpItem::List(writes@.map_values(|w: SlotWrite| w.item_from(first as nat))),
            ),
        ),
{
    let ghost base = stream_levels(*stream);
    let ghost items = writes@.map_values(|w: SlotWrite| w.item_from(first as nat));
    stream_begin_list(stream, writes.len());
    proof {
        lemma_list_opened(base, items);
    }
    let mut n: usize = 0;
    while n < writes.len()
        invariant
            base.len() >= 1,
            n <= writes@.len(),
            items == writes@.map_values(|w: SlotWrite| w.item_from(first as nat)),
            stream_levels(*stream) == filling(base, items.take(n as int), items.len()),
            stream_levels(*stream).len() >= 1,
        decreases writes@.len() - n,
    {
        write_write(stream, &writes[n], first);
        proof {
            lemma_list_item(base, items, n as int);
        }
        n = n + 1;
    }
    proof {
        lemma_list_closed(base, items);
    }
}

fn write_slot(stream: &mut rlp::RlpStream, slot: &SlotChanges, first: u16)
    requires
        stream_levels(*old(stream)).len() >= 1,
    ensures
        stream_levels(*final(stream)) == put(
            stream_levels(*old(stream)),
            encode(slot.item_from(first as nat)),
        ),
{
    let ghost base = stream_levels(*stream);
    let ghost items = slot.item_from(first as nat)->List_0;
    stream_begin_list(stream, 2);
    proof {
        lemma_list_opened(base, items);
    }
    stream_append_bytes(stream, slot.key.as_slice());
    proof {
        lemma_list_item(base, items, 0);
    }
    write_writes(stream, &slot.writes, first);
    proof {
        lemma_list_item(base, items, 1);
        lemma_list_closed(base, items);
    }
}

fn write_slots(stream: &mut rlp::RlpStream, slots: &Vec<SlotChanges>, first: u16)
    requires
        stream_levels(*old(stream)).len() >= 1,
    ensures
        stream_levels(*final(stream)) == put(
            stream_levels(*old(stream)),
            encode(
                RlpItem::List(slots@.map_values(|s: SlotChanges| s.item_from(first as nat))),
            ),
        ),
{
    let ghost base = stream_levels(*stream);
    let ghost items = slots@.map_values(|s: SlotChanges| s.item_from(first as nat));
    stream_begin_list(stream, slots.len());
    proof {
        lemma_list_opened(base, items);
    }
    let mut n: usize = 0;
    while n < slots.len()
        invariant
            base.len() >= 1,
            n <= slots@.len(),
            items == slots@.map_values(|s: SlotChanges| s.item_from(first as nat)),
            stream_levels(*stream) == filling(base, items.take(n as int), items.len()),
            stream_levels(*stream).len() >= 1,
        decreases slots@.len() - n,
    {
        write_slot(stream, &slots[n], first);
        proof {
            lemma_list_item(base, items, n as int);
        }
        n = n + 1;
    }
    proof {
        lemma_list_closed(base, items);
    }
}

fn write_keys(stream: &mut rlp::RlpStream, keys: &Vec<[u8; 32]>)
    requires
        stream_levels(*old(stream)).len() >= 1,
    ensures
        stream_levels(*final(stream)) == put(
            stream_levels(*old(stream)),
            encode(RlpItem::List(keys@.map_values(|key: [u8; 32]| RlpItem::Str(key@)))),
        ),
{
    let ghost base = stream_levels(*stream);
    let ghost items = keys@.map_values(|key: [u8; 32]| RlpItem::Str(key@));
    stream_begin_list(stream, keys.len());
    proof {
        lemma_list_opened(base, items);
    }
    let mut n: usize = 0;
    while n < keys.len()
        invariant
            base.len() >= 1,
            n <= keys@.len(),
            items == keys@.map_values(|key: [u8; 32]| RlpItem::Str(key@)),
            stream_levels(*stream) == filling(base, items.take(n as int), items.len()),
            stream_levels(*stream).len() >= 1,
        decreases keys@.len() - n,
    {
        stream_append_bytes(stream, keys[n].as_slice());
        proof {
            lemma_list_item(base, items, n as int);
        }
        n = n + 1;
    }
    proof {
        lemma_list_closed(base, items);
    }
}

fn write_account(stream: &mut rlp::RlpStream, account: &AccountChanges, first: u16)
    requires
        stream_levels(*old(stream)).len() >= 1,
    ensures
        stream_levels(*final(stream)) == put(
            stream_levels(*old(stream)),
            encode(account.item_from(first as nat)),
        ),
{
    let ghost base = stream_levels(*stream);
    let ghost items = account.item_from(first as nat)->List_0;
    stream_begin_list(stream, 6);
    proof {
        lemma_list_opened(base, items);
    }
    stream_append_bytes(stream, account.address.as_slice());
    proof {
        lemma_list_item(base, items, 0);
    }
    write_slots(stream, &account.changes, first);
    proof {
        lemma_list_item(base, items, 1);
    }
    write_keys(stream, &account.reads);
    proof {
        lemma_list_item(base, items, 2);
    }
    write_no_changes(stream);
    proof {
        lemma_list_item(base, items, 3);
    }
    write_no_changes(stream);
    proof {
        lemma_list_item(base, items, 4);
    }
    write_no_changes(stream);
    proof {
        lemma_list_item(base, items, 5);
        lemma_list_closed(base, items);
    }
}

impl BlockChanges {
    /// The accounts in EIP-7928 form, with the transactions counted from
    /// `first`.
    pub open spec fn item_from(self, first: nat) -> RlpItem {
        RlpItem::List(self.accounts@.map_values(|a: AccountChanges| a.item_from(first)))
    }

    /// The EIP-7928 list with the transactions counted from `first`: the format
    /// keeps index 0 for what happens before the transactions.
    pub fn encode_from(&self, first: u16) -> (res: Vec<u8>)
        ensures
            res@ == encode(self.item_from(first as nat)),
    {
        let mut stream = stream_new();
        let ghost base = stream_levels(stream);
        let ghost items = self.item_from(first as nat)->List_0;
        stream_begin_list(&mut stream, self.accounts.len());
        proof {
            lemma_list_opened(base, items);
        }
        let mut n: usize = 0;
        while n < self.accounts.len()
            invariant
                base.len() >= 1,
                n <= self.accounts@.len(),
                items == self.accounts@.map_values(|a: AccountChanges| a.item_from(first as nat)),
                stream_levels(stream) == filling(base, items.take(n as int), items.len()),
                stream_levels(stream).len() >= 1,
            decreases self.accounts@.len() - n,
        {
            write_account(&mut stream, &self.accounts[n], first);
            proof {
                lemma_list_item(base, items, n as int);
            }
            n = n + 1;
        }
        proof {
            lemma_list_closed(base, items);
            lemma_output(self.item_from(first as nat));
        }
        stream_out(stream)
    }
}

} // verus!
