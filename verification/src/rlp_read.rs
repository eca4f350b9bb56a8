//! Reading recursive length prefix encodings with the `rlp` crate.
use vstd::prelude::*;

use crate::rlp_item::{
    be_bytes, be_value, encode, encode_all, header, lemma_be_bytes, lemma_header,
    lemma_list_begins, lemma_payload_fits, length_limit, payload, uint_item, RlpItem,
};

verus! {

#[verifier::external_type_specification]
#[verifier::external_body]
pub struct ExDecoderError(rlp::DecoderError);

/// Whether bytes begin like a list.
pub open spec fn begins_list(bytes: Seq<u8>) -> bool {
    bytes.len() > 0 && bytes[0] >= 0xc0
}

/// Whether bytes begin with an item: there are as many as the prefix announces,
/// and a length field has no leading zero and is used only where it is needed.
pub open spec fn begins_item(bytes: Seq<u8>) -> bool {
    let h = header(bytes);
    &&& bytes.len() > 0
    &&& h.start >= 2 ==> bytes.len() >= h.start && bytes[1] != 0 && h.len > 55
    &&& h.start + h.len <= bytes.len()
}

/// The length of the item that bytes begin with.
pub open spec fn item_len(bytes: Seq<u8>) -> nat {
    header(bytes).start + header(bytes).len
}

/// The items that bytes are made of, up to where no further item begins.
pub open spec fn split(bytes: Seq<u8>) -> Seq<Seq<u8>>
    decreases bytes.len(),
{
    if begins_item(bytes) {
        seq![bytes.take(item_len(bytes) as int)] + split(bytes.skip(item_len(bytes) as int))
    } else {
        Seq::empty()
    }
}

/// The items in a list. The end of the list is heeded for the first of them
/// only: bytes that follow the list are taken for further items.
pub open spec fn items_in(bytes: Seq<u8>) -> Seq<Seq<u8>> {
    let h = header(bytes);
    if begins_list(bytes) && begins_item(bytes) && begins_item(
        bytes.subrange(h.start as int, (h.start + h.len) as int),
    ) {
        split(bytes.skip(h.start as int))
    } else {
        Seq::empty()
    }
}

/// The byte string that bytes begin with. A length field has no leading zero,
/// and a byte below 0x80 stands for itself.
pub open spec fn string_in(bytes: Seq<u8>) -> Option<Seq<u8>> {
    let h = header(bytes);
    if bytes.len() == 0 || h.is_list {
        None
    } else if h.start >= 2 && (bytes.len() < h.start || bytes[1] == 0) {
        None
    } else if bytes.len() < h.start + h.len || (bytes[0] == 0x81 && bytes[1] < 0x80) {
        None
    } else {
        Some(bytes.subrange(h.start as int, (h.start + h.len) as int))
    }
}

/// The number of up to `width` bytes, without leading zeros, that bytes begin
/// with.
pub open spec fn number_in(bytes: Seq<u8>, width: nat) -> Option<nat> {
    match string_in(bytes) {
        Some(digits) => if digits.len() <= width && (digits.len() == 0 || digits[0] != 0) {
            Some(be_value(digits))
        } else {
            None
        },
        None => None,
    }
}

/// What several byte vectors hold.
pub open spec fn bytes_view(items: Seq<Vec<u8>>) -> Seq<Seq<u8>> {
    items.map_values(|v: Vec<u8>| v@)
}

/// `rlp::Rlp::is_list`: looks at the first byte.
#[verifier::external_body]
pub(crate) fn rlp_is_list(bytes: &[u8]) -> (res: bool)
    ensures
        res == begins_list(bytes@),
{
    rlp::Rlp::new(bytes).is_list()
}

/// `rlp::Rlp::iter`: the encodings of the items in a list, as far as they can
/// be told apart, and none for bytes that do not begin with a list.
#[verifier::external_body]
pub(crate) fn rlp_items(bytes: &[u8]) -> (res: Vec<Vec<u8>>)
    ensures
        bytes_view(res@) == items_in(bytes@),
{
    rlp::Rlp::new(bytes).iter().map(|item| item.as_raw().to_vec()).collect()
}

/// `rlp::Rlp::as_val` for a 32-bit number: one of up to four bytes. Which error
/// comes otherwise is left unsaid.
#[verifier::external_body]
pub(crate) fn rlp_u32(bytes: &[u8]) -> (res: Result<u32, rlp::DecoderError>)
    ensures
        res is Ok == number_in(bytes@, 4) is Some,
        res is Ok ==> number_in(bytes@, 4) == Some(res->Ok_0 as nat),
{
    rlp::Rlp::new(bytes).as_val()
}

/// `rlp::Rlp::as_val` for an 8-bit number: one of up to one byte. Which error
/// comes otherwise is left unsaid.
#[verifier::external_body]
pub(crate) fn rlp_u8(bytes: &[u8]) -> (res: Result<u8, rlp::DecoderError>)
    ensures
        res is Ok == number_in(bytes@, 1) is Some,
        res is Ok ==> number_in(bytes@, 1) == Some(res->Ok_0 as nat),
{
    rlp::Rlp::new(bytes).as_val()
}

/// `rlp::Rlp::as_val` for a byte string. Which error comes otherwise is left
/// unsaid.
#[verifier::external_body]
pub(crate) fn rlp_bytes(bytes: &[u8]) -> (res: Result<Vec<u8>, rlp::DecoderError>)
    ensures
        res is Ok == string_in(bytes@) is Some,
        res is Ok ==> string_in(bytes@) == Some(res->Ok_0@),
{
    rlp::Rlp::new(bytes).as_val()
}

/// Bytes that begin with the encoding of an item begin with that item.
proof fn lemma_begins_item(item: RlpItem, rest: Seq<u8>)
    requires
        payload(item).len() < length_limit(),
    ensures
        begins_item(encode(item) + rest),
        item_len(encode(item) + rest) == encode(item).len(),
{
    lemma_header(item, rest);
    assert((encode(item) + rest)[0] == encode(item)[0]);
}

/// Encodings one after the other are split into what they were made of.
proof fn lemma_split(items: Seq<RlpItem>)
    requires
        encode_all(items).len() < length_limit(),
    ensures
        split(encode_all(items)) == items.map_values(|i: RlpItem| encode(i)),
    decreases items.len(),
{
    let encoded = items.map_values(|i: RlpItem| encode(i));
    if items.len() == 0 {
        assert(split(encode_all(items)) =~= encoded);
    } else {
        let tail = items.subrange(1, items.len() as int);
        let rest = encode_all(tail);
        let all = encode(items[0]) + rest;
        let n = encode(items[0]).len() as int;
        lemma_begins_item(items[0], rest);
        lemma_split(tail);
        assert(all.take(n) =~= encode(items[0]));
        assert(all.skip(n) =~= rest);
        assert(seq![encode(items[0])] + tail.map_values(|i: RlpItem| encode(i)) =~= encoded);
    }
}

/// The items of a list are found in its encoding.
pub proof fn lemma_items_of_list(items: Seq<RlpItem>)
    requires
        encode(RlpItem::List(items)).len() < length_limit(),
    ensures
        begins_list(encode(RlpItem::List(items))),
        items_in(encode(RlpItem::List(items))) == items.map_values(|i: RlpItem| encode(i)),
{
    let list = RlpItem::List(items);
    let bytes = encode(list);
    let none = Seq::<u8>::empty();
    assert(bytes + none =~= bytes);
    lemma_list_begins(items);
    lemma_begins_item(list, none);
    lemma_header(list, none);
    let h = header(bytes);
    let body = bytes.subrange(h.start as int, (h.start + h.len) as int);
    assert(body =~= encode_all(items));
    assert(bytes.skip(h.start as int) =~= body);
    lemma_split(items);
    if items.len() > 0 {
        lemma_payload_fits(items[0]);
        lemma_begins_item(items[0], encode_all(items.subrange(1, items.len() as int)));
    } else {
        assert(items_in(bytes) =~= items.map_values(|i: RlpItem| encode(i)));
    }
}

/// A byte string is found in its encoding.
pub proof fn lemma_string_of(s: Seq<u8>)
    requires
        s.len() < length_limit(),
    ensures
        string_in(encode(RlpItem::Str(s))) == Some(s),
{
    let item = RlpItem::Str(s);
    let bytes = encode(item);
    let none = Seq::<u8>::empty();
    assert(bytes + none =~= bytes);
    lemma_header(item, none);
    if bytes[0] == 0x81 {
        assert(s.len() == 1);
        assert(bytes[1] == s[0]);
    }
}

/// A number is found in its encoding.
pub proof fn lemma_number_of(n: nat, width: nat)
    requires
        be_bytes(n).len() <= width < length_limit(),
    ensures
        number_in(encode(uint_item(n)), width) == Some(n),
{
    lemma_string_of(be_bytes(n));
    lemma_be_bytes(n);
}

} // verus!
