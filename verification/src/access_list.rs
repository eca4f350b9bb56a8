//! Access lists of a block and the two formats in which they are sent: the
//! BEP-592 payload and the EIP-7928 list.
use vstd::prelude::*;

use crate::order::{picked, sorted_by_key, sorted_order, Keyed};
use crate::rlp_item::{encode, uint_item, RlpItem};
use crate::rlp_stream::{filling, put, stream_levels};
use crate::rlp_stream::{lemma_list_closed, lemma_list_item, lemma_list_opened, lemma_output};
use crate::rlp_stream::{
    stream_append_bytes, stream_append_uint, stream_begin_list, stream_new, stream_out,
};

verus! {

/// One storage slot that the transactions of a block access.
#[derive(Debug, Clone, Copy)]
pub struct StorageAccessItem {
    /// The first transaction that accessed the slot.
    pub tx_index: u32,
    /// Whether any transaction wrote the slot.
    pub dirty: bool,
    pub key: [u8; 32],
    pub value: [u8; 32],
}

/// An account with the storage slots that are accessed in it.
#[derive(Debug, Clone)]
pub struct AccountAccessListEncode {
    pub tx_index: u32,
    pub address: [u8; 20],
    pub storage_items: Vec<StorageAccessItem>,
}

/// The access list of a block.
#[derive(Debug, Clone)]
pub struct BlockAccessListEncode {
    pub version: u32,
    pub number: u64,
    pub hash: [u8; 32],
    pub sign_data: Vec<u8>,
    pub accounts: Vec<AccountAccessListEncode>,
}

/// What a storage access item holds.
pub struct SlotAccess {
    pub tx_index: u32,
    pub dirty: bool,
    pub key: Seq<u8>,
    pub value: Seq<u8>,
}

impl View for StorageAccessItem {
    type V = SlotAccess;

    open spec fn view(&self) -> SlotAccess {
        SlotAccess {
            tx_index: self.tx_index,
            dirty: self.dirty,
            key: self.key@,
            value: self.value@,
        }
    }
}

/// What several storage access items hold.
pub open spec fn slots_view(items: Seq<StorageAccessItem>) -> Seq<SlotAccess> {
    items.map_values(|i: StorageAccessItem| i@)
}

impl Keyed for StorageAccessItem {
    open spec fn spec_key(&self) -> Seq<u8> {
        self.key@
    }

    fn key(&self) -> (res: &[u8]) {
        self.key.as_slice()
    }
}

impl Keyed for AccountAccessListEncode {
    open spec fn spec_key(&self) -> Seq<u8> {
        self.address@
    }

    fn key(&self) -> (res: &[u8]) {
        self.address.as_slice()
    }
}

/// 1 for true and 0 for false.
pub open spec fn flag(b: bool) -> nat {
    if b {
        1
    } else {
        0
    }
}

impl StorageAccessItem {
    pub fn new(tx_index: u32, dirty: bool, key: [u8; 32], value: [u8; 32]) -> (res: Self)
        ensures
            res == (StorageAccessItem { tx_index, dirty, key, value }),
    {
        StorageAccessItem { tx_index, dirty, key, value }
    }

    /// The slot as BEP-592 lists it: `[tx_index, dirty, key]`.
    pub open spec fn bep592_item(self) -> RlpItem {
        RlpItem::List(
            seq![
                uint_item(self.tx_index as nat),
                uint_item(flag(self.dirty)),
                RlpItem::Str(self.key@),
            ],
        )
    }

    /// A written slot as EIP-7928 lists it: `[key, [[index, value]]]`, where
    /// the transactions are counted from `first` and 16 bits of the index stay.
    pub open spec fn change_item(self, first: nat) -> RlpItem {
        RlpItem::List(
            seq![
                RlpItem::Str(self.key@),
                RlpItem::List(
                    seq![
                        RlpItem::List(
                            seq![
                                uint_item((self.tx_index as nat + first) % 0x1_0000),
                                RlpItem::Str(self.value@),
                            ],
                        ),
                    ],
                ),
            ],
        )
    }

    /// A slot that was only read as EIP-7928 lists it.
    pub open spec fn read_item(self) -> RlpItem {
        RlpItem::Str(self.key@)
    }
}

impl AccountAccessListEncode {
    /// An account of which no slot is known yet.
    pub fn new(tx_index: u32, address: [u8; 20]) -> (res: Self)
        ensures
            res.tx_index == tx_index,
            res.address == address,
            res.storage_items@ == Seq::<StorageAccessItem>::empty(),
    {
        AccountAccessListEncode { tx_index, address, storage_items: Vec::new() }
    }

    /// The account as BEP-592 lists it: `[tx_index, address, slots]`.
    pub open spec fn bep592_item(self) -> RlpItem {
        RlpItem::List(
            seq![
                uint_item(self.tx_index as nat),
                RlpItem::Str(self.address@),
                RlpItem::List(self.storage_items@.map_values(|i: StorageAccessItem| i.bep592_item())),
            ],
        )
    }

    /// The written slots in ascending order of their keys.
    pub open spec fn changes(self) -> Seq<StorageAccessItem> {
        sorted_by_key(self.storage_items@).filter(|i: StorageAccessItem| i.dirty)
    }

    /// The slots that were only read, in ascending order of their keys.
    pub open spec fn reads(self) -> Seq<StorageAccessItem> {
        sorted_by_key(self.storage_items@).filter(|i: StorageAccessItem| !i.dirty)
    }

    /// The account as EIP-7928 lists it: the address, the storage changes, the
    /// storage reads, and no balance, nonce or code changes. Transactions are
    /// counted from `first`.
    pub open spec fn eip7928_item_from(self, first: nat) -> RlpItem {
        RlpItem::List(
            seq![
                RlpItem::Str(self.address@),
                RlpItem::List(
                    self.changes().map_values(|i: StorageAccessItem| i.change_item(first)),
                ),
                RlpItem::List(self.reads().map_values(|i: StorageAccessItem| i.read_item())),
                RlpItem::List(Seq::empty()),
                RlpItem::List(Seq::empty()),
                RlpItem::List(Seq::empty()),
            ],
        )
    }
}

fn write_storage_item(stream: &mut rlp::RlpStream, item: &StorageAccessItem)
    requires
        stream_levels(*old(stream)).len() >= 1,
    ensures
        stream_levels(*final(stream)) == put(
            stream_levels(*old(stream)),
            encode(item.bep592_item()),
        ),
{
    let ghost base = stream_levels(*stream);
    let ghost items = item.bep592_item()->List_0;
    stream_begin_list(stream, 3);
    proof {
        lemma_list_opened(base, items);
    }
    stream_append_uint(stream, item.tx_index as u64);
    proof {
        lemma_list_item(base, items, 0);
    }
    stream_append_uint(stream, if item.dirty { 1 } else { 0 });
    proof {
        lemma_list_item(base, items, 1);
    }
    stream_append_bytes(stream, item.key.as_slice());
    proof {
        lemma_list_item(base, items, 2);
        lemma_list_closed(base, items);
    }
}

fn write_storage_items(stream: &mut rlp::RlpStream, slots: &Vec<StorageAccessItem>)
    requires
        stream_levels(*old(stream)).len() >= 1,
    ensures
        stream_levels(*final(stream)) == put(
            stream_levels(*old(stream)),
            encode(
                RlpItem::List(slots@.map_values(|i: StorageAccessItem| i.bep592_item())),
            ),
        ),
{
    let ghost base = stream_levels(*stream);
    let ghost items = slots@.map_values(|i: StorageAccessItem| i.bep592_item());
    stream_begin_list(stream, slots.len());
    proof {
        lemma_list_opened(base, items);
    }
    let mut n: usize = 0;
    while n < slots.len()
        invariant
            base.len() >= 1,
            n <= slots@.len(),
            items == slots@.map_values(|i: StorageAccessItem| i.bep592_item()),
            stream_levels(*stream) == filling(base, items.take(n as int), items.len()),
            stream_levels(*stream).len() >= 1,
        decreases slots@.len() - n,
    {
        write_storage_item(stream, &slots[n]);
        proof {
            lemma_list_item(base, items, n as int);
        }
        n = n + 1;
    }
    proof {
        lemma_list_closed(base, items);
    }
}

fn write_account(stream: &mut rlp::RlpStream, account: &AccountAccessListEncode)
    requires
        stream_levels(*old(stream)).len() >= 1,
    ensures
        stream_levels(*final(stream)) == put(
            stream_levels(*old(stream)),
            encode(account.bep592_item()),
        ),
{
    let ghost base = stream_levels(*stream);
    let ghost items = account.bep592_item()->List_0;
    stream_begin_list(stream, 3);
    proof {
        lemma_list_opened(base, items);
    }
    stream_append_uint(stream, account.tx_index as u64);
    proof {
        lemma_list_item(base, items, 0);
    }
    stream_append_bytes(stream, account.address.as_slice());
    proof {
        lemma_list_item(base, items, 1);
    }
    write_storage_items(stream, &account.storage_items);
    proof {
        lemma_list_item(base, items, 2);
        lemma_list_closed(base, items);
    }
}

fn write_accounts(stream: &mut rlp::RlpStream, accounts: &Vec<AccountAccessListEncode>)
    requires
        stream_levels(*old(stream)).len() >= 1,
    ensures
        stream_levels(*final(stream)) == put(
            stream_levels(*old(stream)),
            encode(
                RlpItem::List(
                    accounts@.map_values(|a: AccountAccessListEncode| a.bep592_item()),
                ),
            ),
        ),
{
    let ghost base = stream_levels(*stream);
    let ghost items = accounts@.map_values(|a: AccountAccessListEncode| a.bep592_item());
    stream_begin_list(stream, accounts.len());
    proof {
        lemma_list_opened(base, items);
    }
    let mut n: usize = 0;
    while n < accounts.len()
        invariant
            base.len() >= 1,
            n <= accounts@.len(),
            items == accounts@.map_values(|a: AccountAccessListEncode| a.bep592_item()),
            stream_levels(*stream) == filling(base, items.take(n as int), items.len()),
            stream_levels(*stream).len() >= 1,
        decreases accounts@.len() - n,
    {
        write_account(stream, &accounts[n]);
        proof {
            lemma_list_item(base, items, n as int);
        }
        n = n + 1;
    }
    proof {
        lemma_list_closed(base, items);
    }
}

fn write_change(stream: &mut rlp::RlpStream, item: &StorageAccessItem, first: u16)
    requires
        stream_levels(*old(stream)).len() >= 1,
    ensures
        stream_levels(*final(stream)) == put(
            stream_levels(*old(stream)),
            encode(item.change_item(first as nat)),
        ),
{
    let ghost base = stream_levels(*stream);
    let ghost items = item.change_item(first as nat)->List_0;
    let ghost inner = items[1]->List_0;
    let ghost pair = inner[0]->List_0;
    stream_begin_list(stream, 2);
    proof {
        lemma_list_opened(base, items);
    }
    stream_append_bytes(stream, item.key.as_slice());
    proof {
        lemma_list_item(base, items, 0);
    }
    let ghost base1 = stream_levels(*stream);
    stream_begin_list(stream, 1);
    proof {
        lemma_list_opened(base1, inner);
    }
    let ghost base2 = stream_levels(*stream);
    stream_begin_list(stream, 2);
    proof {
        lemma_list_opened(base2, pair);
    }
    stream_append_uint(stream, (item.tx_index as u64 + first as u64) % 0x1_0000);
    proof {
        lemma_list_item(base2, pair, 0);
    }
    stream_append_bytes(stream, item.value.as_slice());
    proof {
        lemma_list_item(base2, pair, 1);
        lemma_list_closed(base2, pair);
        lemma_list_item(base1, inner, 0);
        lemma_list_closed(base1, inner);
        lemma_list_item(base, items, 1);
        lemma_list_closed(base, items);
    }
}

/// The positions, among `order`, of the slots that are written and of those
/// that are only read.
fn split_by_dirty(slots: &Vec<StorageAccessItem>, order: &Vec<usize>) -> (res: (
    Vec<usize>,
    Vec<usize>,
))
    requires
        forall|i: int| 0 <= i < order@.len() ==> #[trigger] order@[i] < slots@.len(),
    ensures
        forall|i: int| 0 <= i < res.0@.len() ==> #[trigger] res.0@[i] < slots@.len(),
        forall|i: int| 0 <= i < res.1@.len() ==> #[trigger] res.1@[i] < slots@.len(),
        picked(slots@, res.0@) == picked(slots@, order@).filter(|i: StorageAccessItem| i.dirty),
        picked(slots@, res.1@) == picked(slots@, order@).filter(|i: StorageAccessItem| !i.dirty),
{
    let mut changes: Vec<usize> = Vec::new();
    let mut reads: Vec<usize> = Vec::new();
    let ghost all = picked(slots@, order@);
    let ghost dirty = |i: StorageAccessItem| i.dirty;
    let ghost clean = |i: StorageAccessItem| !i.dirty;
    let mut n: usize = 0;
    proof {
        reveal(Seq::filter);
        assert(picked(slots@, changes@) =~= all.take(0).filter(dirty));
        assert(picked(slots@, reads@) =~= all.take(0).filter(clean));
    }
    while n < order.len()
        invariant
            n <= order@.len(),
            all == picked(slots@, order@),
            dirty == (|i: StorageAccessItem| i.dirty),
            clean == (|i: StorageAccessItem| !i.dirty),
            forall|i: int| 0 <= i < order@.len() ==> #[trigger] order@[i] < slots@.len(),
            forall|i: int| 0 <= i < changes@.len() ==> #[trigger] changes@[i] < slots@.len(),
            forall|i: int| 0 <= i < reads@.len() ==> #[trigger] reads@[i] < slots@.len(),
            picked(slots@, changes@) == all.take(n as int).filter(dirty),
            picked(slots@, reads@) == all.take(n as int).filter(clean),
        decreases order@.len() - n,
    {
        let at: usize = order[n];
        let ghost changes_before = changes@;
        let ghost reads_before = reads@;
        proof {
            reveal(Seq::filter);
            assert(all.take(n + 1).drop_last() =~= all.take(n as int));
            assert(all.take(n + 1).last() == slots@[at as int]);
        }
        if slots[at].dirty {
            changes.push(at);
            assert(picked(slots@, changes@) =~= picked(slots@, changes_before).push(
                slots@[at as int],
            ));
        } else {
            reads.push(at);
            assert(picked(slots@, reads@) =~= picked(slots@, reads_before).push(slots@[at as int]));
        }
        n = n + 1;
    }
    assert(all.take(n as int) =~= all);
    (changes, reads)
}

fn write_changes(
    stream: &mut rlp::RlpStream,
    slots: &Vec<StorageAccessItem>,
    order: &Vec<usize>,
    first: u16,
)
    requires
        stream_levels(*old(stream)).len() >= 1,
        forall|i: int| 0 <= i < order@.len() ==> #[trigger] order@[i] < slots@.len(),
    ensures
        stream_levels(*final(stream)) == put(
            stream_levels(*old(stream)),
            encode(
                RlpItem::List(
                    picked(slots@, order@).map_values(
                        |i: StorageAccessItem| i.change_item(first as nat),
                    ),
                ),
            ),
        ),
{
    let ghost base = stream_levels(*stream);
    let ghost items = picked(slots@, order@).map_values(
        |i: StorageAccessItem| i.change_item(first as nat),
    );
    stream_begin_list(stream, order.len());
    proof {
        lemma_list_opened(base, items);
    }
    let mut n: usize = 0;
    while n < order.len()
        invariant
            base.len() >= 1,
            n <= order@.len(),
            forall|i: int| 0 <= i < order@.len() ==> #[trigger] order@[i] < slots@.len(),
            items == picked(slots@, order@).map_values(
                |i: StorageAccessItem| i.change_item(first as nat),
            ),
            stream_levels(*stream) == filling(base, items.take(n as int), items.len()),
            stream_levels(*stream).len() >= 1,
        decreases order@.len() - n,
    {
        write_change(stream, &slots[order[n]], first);
        proof {
            lemma_list_item(base, items, n as int);
        }
        n = n + 1;
    }
    proof {
        lemma_list_closed(base, items);
    }
}

fn write_reads(stream: &mut rlp::RlpStream, slots: &Vec<StorageAccessItem>, order: &Vec<usize>)
    requires
        stream_levels(*old(stream)).len() >= 1,
        forall|i: int| 0 <= i < order@.len() ==> #[trigger] order@[i] < slots@.len(),
    ensures
        stream_levels(*final(stream)) == put(
            stream_levels(*old(stream)),
            encode(
                RlpItem::List(
                    picked(slots@, order@).map_values(|i: StorageAccessItem| i.read_item()),
                ),
            ),
        ),
{
    let ghost base = stream_levels(*stream);
    let ghost items = picked(slots@, order@).map_values(|i: StorageAccessItem| i.read_item());
    stream_begin_list(stream, order.len());
    proof {
        lemma_list_opened(base, items);
    }
    let mut n: usize = 0;
    while n < order.len()
        invariant
            base.len() >= 1,
            n <= order@.len(),
            forall|i: int| 0 <= i < order@.len() ==> #[trigger] order@[i] < slots@.len(),
            items == picked(slots@, order@).map_values(|i: StorageAccessItem| i.read_item()),
            stream_levels(*stream) == filling(base, items.take(n as int), items.len()),
            stream_levels(*stream).len() >= 1,
        decreases order@.len() - n,
    {
        stream_append_bytes(stream, slots[order[n]].key.as_slice());
        proof {
            lemma_list_item(base, items, n as int);
        }
        n = n + 1;
    }
    proof {
        lemma_list_closed(base, items);
    }
}

/// Writes the empty list that stands for a kind of change that is not tracked.
pub(crate) fn write_no_changes(stream: &mut rlp::RlpStream)
    requires
        stream_levels(*old(stream)).len() >= 1,
    ensures
        stream_levels(*final(stream)) == put(
            stream_levels(*old(stream)),
            encode(RlpItem::List(Seq::empty())),
        ),
{
    let ghost base = stream_levels(*stream);
    stream_begin_list(stream, 0);
    proof {
        let none = Seq::<RlpItem>::empty();
        lemma_list_opened(base, none);
        lemma_list_closed(base, none);
    }
}

fn write_account_changes(
    stream: &mut rlp::RlpStream,
    account: &AccountAccessListEncode,
    first: u16,
)
    requires
        stream_levels(*old(stream)).len() >= 1,
    ensures
        stream_levels(*final(stream)) == put(
            stream_levels(*old(stream)),
            encode(account.eip7928_item_from(first as nat)),
        ),
{
    let ghost base = stream_levels(*stream);
    let ghost items = account.eip7928_item_from(first as nat)->List_0;
    stream_begin_list(stream, 6);
    proof {
        lemma_list_opened(base, items);
    }
    stream_append_bytes(stream, account.address.as_slice());
    proof {
        lemma_list_item(base, items, 0);
    }
    let order = sorted_order(&account.storage_items);
    let (changes, reads) = split_by_dirty(&account.storage_items, &order);
    write_changes(stream, &account.storage_items, &changes, first);
    proof {
        lemma_list_item(base, items, 1);
    }
    write_reads(stream, &account.storage_items, &reads);
    proof {
        lemma_list_item(base, items, 2);
    }
    write_no_changes(stream);
    proof {
        lemma_list_item(base, items, 3);
    }
    write_no_changes(stream);
    proof {
        lemma_list_item(base, items, 4);
    }
    write_no_changes(stream);
    proof {
        lemma_list_item(base, items, 5);
        lemma_list_closed(base, items);
    }
}

impl BlockAccessListEncode {
    /// The access list of a block of which no account is known yet, in
    /// version 0 and without signature.
    pub fn new(number: u64, hash: [u8; 32]) -> (res: Self)
        ensures
            res.version == 0,
            res.number == number,
            res.hash == hash,
            res.sign_data@ == Seq::<u8>::empty(),
            res.accounts@ == Seq::<AccountAccessListEncode>::empty(),
    {
        BlockAccessListEncode {
            version: 0,
            number,
            hash,
            sign_data: Vec::new(),
            accounts: Vec::new(),
        }
    }

    /// The access list in BEP-592 form:
    /// `[version, number, hash, sign_data, accounts]`.
    pub open spec fn bep592_item(self) -> RlpItem {
        RlpItem::List(
            seq![
                uint_item(self.version as nat),
                uint_item(self.number as nat),
                RlpItem::Str(self.hash@),
                RlpItem::Str(self.sign_data@),
                RlpItem::List(
                    self.accounts@.map_values(|a: AccountAccessListEncode| a.bep592_item()),
                ),
            ],
        )
    }

    /// The access list in EIP-7928 form: the accounts in ascending order of
    /// their addresses, with the transactions counted from `first`.
    pub open spec fn eip7928_item_from(self, first: nat) -> RlpItem {
        RlpItem::List(
            sorted_by_key(self.accounts@).map_values(
                |a: AccountAccessListEncode| a.eip7928_item_from(first),
            ),
        )
    }

    /// The access list in EIP-7928 form with the indices as they are.
    pub open spec fn eip7928_item(self) -> RlpItem {
        self.eip7928_item_from(0)
    }

    /// The BEP-592 payload. It holds no slot values.
    pub fn rlp_encode(&self) -> (res: Vec<u8>)
        ensures
            res@ == encode(self.bep592_item()),
    {
        let mut stream = stream_new();
        let ghost base = stream_levels(stream);
        let ghost items = self.bep592_item()->List_0;
        stream_begin_list(&mut stream, 5);
        proof {
            lemma_list_opened(base, items);
        }
        stream_append_uint(&mut stream, self.version as u64);
        proof {
            lemma_list_item(base, items, 0);
        }
        stream_append_uint(&mut stream, self.number);
        proof {
            lemma_list_item(base, items, 1);
        }
        stream_append_bytes(&mut stream, self.hash.as_slice());
        proof {
            lemma_list_item(base, items, 2);
        }
        stream_append_bytes(&mut stream, self.sign_data.as_slice());
        proof {
            lemma_list_item(base, items, 3);
        }
        write_accounts(&mut stream, &self.accounts);
        proof {
            lemma_list_item(base, items, 4);
            lemma_list_closed(base, items);
            lemma_output(self.bep592_item());
        }
        stream_out(stream)
    }

    /// The EIP-7928 list: accounts and, within each, slots in ascending order,
    /// written slots with their values apart from those that were only read.
    /// The indices are written as they are.
    pub fn eip7928_encode(&self) -> (res: Vec<u8>)
        ensures
            res@ == encode(self.eip7928_item()),
    {
        self.eip7928_encode_from(0)
    }

    /// The EIP-7928 list with the transactions counted from `first`: the format
    /// keeps index 0 for what happens before the transactions, so a list whose
    /// transactions are numbered from 0 is written with `first` 1.
    pub fn eip7928_encode_from(&self, first: u16) -> (res: Vec<u8>)
        ensures
            res@ == encode(self.eip7928_item_from(first as nat)),
    {
        let mut stream = stream_new();
        let order = sorted_order(&self.accounts);
        let ghost base = stream_levels(stream);
        let ghost items = self.eip7928_item_from(first as nat)->List_0;
        stream_begin_list(&mut stream, order.len());
        proof {
            lemma_list_opened(base, items);
        }
        let mut n: usize = 0;
        while n < order.len()
            invariant
                base.len() >= 1,
                n <= order@.len(),
                order@.len() == items.len(),
                forall|i: int| 0 <= i < order@.len() ==> #[trigger] order@[i] < self.accounts@.len(),
                items == picked(self.accounts@, order@).map_values(
                    |a: AccountAccessListEncode| a.eip7928_item_from(first as nat),
                ),
                stream_levels(stream) == filling(base, items.take(n as int), items.len()),
                stream_levels(stream).len() >= 1,
            decreases order@.len() - n,
        {
            write_account_changes(&mut stream, &self.accounts[order[n]], first);
            proof {
                lemma_list_item(base, items, n as int);
            }
            n = n + 1;
        }
        proof {
            lemma_list_closed(base, items);
            lemma_output(self.eip7928_item_from(first as nat));
        }
        stream_out(stream)
    }
}

} // verus!
