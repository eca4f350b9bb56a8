//! Recursive length prefix items and their byte encoding.
use vstd::prelude::*;

verus! {

/// What a recursive length prefix encoding stands for: a byte string, or a
/// list of further items.
pub enum RlpItem {
    Str(Seq<u8>),
    List(Seq<RlpItem>),
}

/// The big-endian bytes of `n` without leading zeros; nothing for zero.
pub open spec fn be_bytes(n: nat) -> Seq<u8>
    decreases n,
{
    if n == 0 {
        Seq::empty()
    } else {
        be_bytes(n / 256).push((n % 256) as u8)
    }
}

/// The number that a big-endian byte string stands for.
pub open spec fn be_value(bytes: Seq<u8>) -> nat
    decreases bytes.len(),
{
    if bytes.len() == 0 {
        0
    } else {
        256 * be_value(bytes.drop_last()) + bytes.last() as nat
    }
}

/// The first length that no longer fits in the four bytes that a length field
/// has room for.
pub open spec fn length_limit() -> nat {
    0x1_0000_0000
}

/// The length field of a payload of more than 55 bytes. The stream keeps 32
/// bits of a length, so a length from 4 GiB on is written modulo that.
pub open spec fn length_field(len: nat) -> Seq<u8> {
    be_bytes(len % length_limit())
}

/// A payload with its prefix, where `short` is the prefix of an empty payload
/// and `long` comes before the one that announces a one-byte length field.
pub open spec fn prefixed(short: u8, long: u8, payload: Seq<u8>) -> Seq<u8> {
    if payload.len() <= 55 {
        seq![(short + payload.len()) as u8] + payload
    } else {
        let field = length_field(payload.len());
        seq![(long + field.len()) as u8] + field + payload
    }
}

/// The encoding of a byte string.
pub open spec fn encode_str(bytes: Seq<u8>) -> Seq<u8> {
    if bytes.len() == 1 && bytes[0] < 0x80 {
        bytes
    } else {
        prefixed(0x80, 0xb7, bytes)
    }
}

/// The encoding of a list whose encoded items, one after the other, are
/// `payload`.
pub open spec fn encode_list(payload: Seq<u8>) -> Seq<u8> {
    prefixed(0xc0, 0xf7, payload)
}

/// The encoding of an item.
pub open spec fn encode(item: RlpItem) -> Seq<u8>
    decreases item,
{
    match item {
        RlpItem::Str(bytes) => encode_str(bytes),
        RlpItem::List(items) => encode_list(encode_all(items)),
    }
}

/// The encodings of several items, one after the other.
pub open spec fn encode_all(items: Seq<RlpItem>) -> Seq<u8>
    decreases items,
{
    if items.len() == 0 {
        Seq::empty()
    } else {
        encode(items[0]) + encode_all(items.subrange(1, items.len() as int))
    }
}

/// The item of an unsigned number: its bytes without leading zeros.
pub open spec fn uint_item(n: nat) -> RlpItem {
    RlpItem::Str(be_bytes(n))
}

/// Where the payload of an encoding lies and how long it is.
pub struct Header {
    pub is_list: bool,
    pub start: nat,
    pub len: nat,
}

/// What the first bytes of an encoding say of it.
pub open spec fn header(bytes: Seq<u8>) -> Header {
    let first = bytes[0] as nat;
    if first < 0x80 {
        Header { is_list: false, start: 0, len: 1 }
    } else if first <= 0xb7 {
        Header { is_list: false, start: 1, len: (first - 0x80) as nat }
    } else if first <= 0xbf {
        let width = (first - 0xb7) as nat;
        Header {
            is_list: false,
            start: 1 + width,
            len: be_value(bytes.subrange(1, 1 + width as int)),
        }
    } else if first <= 0xf7 {
        Header { is_list: true, start: 1, len: (first - 0xc0) as nat }
    } else {
        let width = (first - 0xf7) as nat;
        Header {
            is_list: true,
            start: 1 + width,
            len: be_value(bytes.subrange(1, 1 + width as int)),
        }
    }
}

proof fn lemma_be_value_of_be_bytes(n: nat)
    ensures
        be_value(be_bytes(n)) == n,
    decreases n,
{
    if n > 0 {
        lemma_be_value_of_be_bytes(n / 256);
        assert(be_bytes(n).drop_last() =~= be_bytes(n / 256));
    }
}

/// Two numbers with the same bytes are the same number.
pub proof fn lemma_be_bytes_injective(m: nat, n: nat)
    requires
        be_bytes(m) == be_bytes(n),
    ensures
        m == n,
{
    lemma_be_value_of_be_bytes(m);
    lemma_be_value_of_be_bytes(n);
}

/// Byte strings of the same length that stand for the same number are equal.
pub proof fn lemma_be_value_injective(a: Seq<u8>, b: Seq<u8>)
    requires
        a.len() == b.len(),
        be_value(a) == be_value(b),
    ensures
        a == b,
    decreases a.len(),
{
    if a.len() > 0 {
        lemma_be_value_injective(a.drop_last(), b.drop_last());
        assert(a =~= a.drop_last().push(a.last()));
        assert(b =~= b.drop_last().push(b.last()));
    } else {
        assert(a =~= b);
    }
}

proof fn lemma_be_bytes_len(n: nat)
    requires
        n < length_limit(),
    ensures
        be_bytes(n).len() <= 4,
        n > 0 ==> be_bytes(n).len() >= 1,
{
    reveal_with_fuel(be_bytes, 6);
}

/// The first byte of a number is not zero.
proof fn lemma_be_bytes_first(n: nat)
    requires
        n > 0,
    ensures
        be_bytes(n).len() > 0,
        be_bytes(n)[0] != 0,
    decreases n,
{
    if n >= 256 {
        lemma_be_bytes_first(n / 256);
        assert(be_bytes(n)[0] == be_bytes(n / 256)[0]);
    } else {
        assert(be_bytes(n / 256) =~= Seq::empty());
    }
}

/// The bytes of a number begin with no zero and stand for the number.
pub proof fn lemma_be_bytes(n: nat)
    ensures
        be_bytes(n).len() == 0 || be_bytes(n)[0] != 0,
        be_value(be_bytes(n)) == n,
{
    lemma_be_value_of_be_bytes(n);
    if n > 0 {
        lemma_be_bytes_first(n);
    }
}

/// What is appended to a sequence of items adds its encoding at the end.
pub proof fn lemma_encode_all_push(items: Seq<RlpItem>, item: RlpItem)
    ensures
        encode_all(items.push(item)) == encode_all(items) + encode(item),
    decreases items.len(),
{
    let longer = items.push(item);
    if items.len() == 0 {
        assert(longer.subrange(1, 1) =~= Seq::empty());
        assert(encode_all(longer.subrange(1, 1)) =~= Seq::empty());
        assert(encode_all(longer) =~= encode(item));
    } else {
        let rest = items.subrange(1, items.len() as int);
        lemma_encode_all_push(rest, item);
        assert(longer.subrange(1, longer.len() as int) =~= rest.push(item));
        assert(encode_all(longer) =~= encode_all(items) + encode(item));
    }
}

/// The payload of an item, and whether it is a list.
pub open spec fn payload(item: RlpItem) -> Seq<u8> {
    match item {
        RlpItem::Str(bytes) => bytes,
        RlpItem::List(items) => encode_all(items),
    }
}

/// An encoding is no shorter than its payload.
pub proof fn lemma_payload_fits(item: RlpItem)
    ensures
        payload(item).len() <= encode(item).len(),
{
}

/// What the first bytes of an encoding say of it is true, whatever follows.
pub proof fn lemma_header(item: RlpItem, rest: Seq<u8>)
    requires
        payload(item).len() < length_limit(),
    ensures
        ({
            let h = header(encode(item) + rest);
            &&& h.is_list == (item is List)
            &&& h.len == payload(item).len()
            &&& encode(item).len() == h.start + h.len
            &&& h.start >= 2 ==> h.len > 55 && encode(item)[1] != 0
            &&& payload(item) == (encode(item) + rest).subrange(
                h.start as int,
                (h.start + h.len) as int,
            )
        }),
{
    let body = payload(item);
    let all = encode(item) + rest;
    let h = header(all);
    if item is Str && body.len() == 1 && body[0] < 0x80 {
        assert(all[0] == body[0]);
        assert(all.subrange(0, 1) =~= body);
    } else if body.len() <= 55 {
        assert(all.subrange(1, 1 + body.len() as int) =~= body);
    } else {
        let field = length_field(body.len());
        assert(body.len() < length_limit());
        assert(body.len() % length_limit() == body.len()) by {
            vstd::arithmetic::div_mod::lemma_small_mod(body.len(), length_limit());
        }
        lemma_be_value_of_be_bytes(body.len());
        lemma_be_bytes_len(body.len());
        let long: u8 = if item is List { 0xf7 } else { 0xb7 };
        assert(all[0] == (long + field.len()) as u8);
        lemma_be_bytes_first(body.len());
        assert(encode(item)[1] == field[0]);
        assert(all.subrange(1, 1 + field.len() as int) =~= field);
        assert(all.subrange(1 + field.len() as int, 1 + field.len() + body.len() as int) =~= body);
    }
}

proof fn lemma_item_fits_all(items: Seq<RlpItem>, i: int)
    requires
        0 <= i < items.len(),
    ensures
        encode(items[i]).len() <= encode_all(items).len(),
    decreases i,
{
    let rest = items.subrange(1, items.len() as int);
    if i > 0 {
        lemma_item_fits_all(rest, i - 1);
        assert(rest[i - 1] == items[i]);
    }
}

/// No item of a list is longer than the list.
pub proof fn lemma_item_fits(items: Seq<RlpItem>, i: int)
    requires
        0 <= i < items.len(),
    ensures
        encode(items[i]).len() <= encode(RlpItem::List(items)).len(),
{
    lemma_item_fits_all(items, i);
}

/// The first byte of a list's encoding tells it from that of a byte string.
pub proof fn lemma_list_begins(items: Seq<RlpItem>)
    requires
        encode(RlpItem::List(items)).len() < length_limit(),
    ensures
        encode(RlpItem::List(items))[0] >= 0xc0,
{
    lemma_payload_fits(RlpItem::List(items));
    lemma_header(RlpItem::List(items), Seq::empty());
    assert(encode(RlpItem::List(items)) + Seq::empty() =~= encode(RlpItem::List(items)));
}

/// An encoding says where it ends and what it encodes: of two byte strings
/// that begin with an encoding and are equal, both the items and what follows
/// them are equal.
pub proof fn lemma_prefix_free(a: RlpItem, b: RlpItem, s: Seq<u8>, t: Seq<u8>)
    requires
        encode(a) + s == encode(b) + t,
        payload(a).len() < length_limit(),
        payload(b).len() < length_limit(),
    ensures
        a == b,
        s == t,
    decreases a,
{
    lemma_header(a, s);
    lemma_header(b, t);
    let all = encode(a) + s;
    let n = encode(a).len() as int;
    assert(s =~= all.subrange(n, all.len() as int));
    assert(t =~= all.subrange(n, all.len() as int));
    match (a, b) {
        (RlpItem::List(items), RlpItem::List(others)) => {
            lemma_all_injective(items, others);
        },
        _ => {},
    }
}

/// The items of two equal concatenations of encodings are equal.
pub proof fn lemma_all_injective(items: Seq<RlpItem>, others: Seq<RlpItem>)
    requires
        encode_all(items) == encode_all(others),
        encode_all(items).len() < length_limit(),
    ensures
        items == others,
    decreases items,
{
    if items.len() == 0 {
        if others.len() > 0 {
            lemma_encode_nonempty(others[0]);
        }
        assert(items =~= others);
    } else if others.len() == 0 {
        lemma_encode_nonempty(items[0]);
    } else {
        let tail = items.subrange(1, items.len() as int);
        let other_tail = others.subrange(1, others.len() as int);
        lemma_payload_fits(items[0]);
        lemma_payload_fits(others[0]);
        lemma_prefix_free(items[0], others[0], encode_all(tail), encode_all(other_tail));
        lemma_all_injective(tail, other_tail);
        assert(items =~= seq![items[0]] + tail);
        assert(others =~= seq![others[0]] + other_tail);
    }
}

proof fn lemma_encode_nonempty(item: RlpItem)
    ensures
        encode(item).len() > 0,
{
}

/// The prefix of a list's encoding can be dropped, whatever the length of the
/// list, as long as both lists have the short form or both have the long one.
pub proof fn lemma_list_prefix(p: Seq<u8>, q: Seq<u8>, s: Seq<u8>, t: Seq<u8>)
    requires
        encode_list(p) + s == encode_list(q) + t,
        p.len() <= 55 <==> q.len() <= 55,
    ensures
        p + s == q + t,
{
    let all = encode_list(p) + s;
    if p.len() <= 55 {
        assert(all[0] == (0xc0 + p.len()) as u8);
        assert(all[0] == (0xc0 + q.len()) as u8);
        assert(p + s =~= all.subrange(1, all.len() as int));
        assert(q + t =~= all.subrange(1, all.len() as int));
    } else {
        let f = length_field(p.len());
        let g = length_field(q.len());
        lemma_be_bytes_len(p.len() % length_limit());
        lemma_be_bytes_len(q.len() % length_limit());
        assert(all[0] == (0xf7 + f.len()) as u8);
        assert(all[0] == (0xf7 + g.len()) as u8);
        let n = 1 + f.len() as int;
        assert(p + s =~= all.subrange(n, all.len() as int));
        assert(q + t =~= all.subrange(n, all.len() as int));
    }
}

/// The first byte of a list's encoding tells the short form from the long one,
/// but for a list of 55 bytes.
pub proof fn lemma_list_first_byte(p: Seq<u8>)
    ensures
        encode_list(p).len() > p.len(),
        p.len() <= 55 ==> encode_list(p)[0] == 0xc0 + p.len(),
        p.len() > 55 ==> encode_list(p)[0] >= 0xf7,
{
    if p.len() > 55 {
        lemma_be_bytes_len(p.len() % length_limit());
    }
}

/// Two lists with the same encoding have the same payload, whatever its length.
pub proof fn lemma_whole_list(p: Seq<u8>, q: Seq<u8>)
    requires
        encode_list(p) == encode_list(q),
    ensures
        p == q,
{
    lemma_list_first_byte(p);
    lemma_list_first_byte(q);
    let none = Seq::<u8>::empty();
    assert(encode_list(p) + none =~= encode_list(p));
    assert(encode_list(q) + none =~= encode_list(q));
    lemma_list_prefix(p, q, none, none);
    assert(p + none =~= p);
    assert(q + none =~= q);
}

/// Byte strings of the same length, or of lengths that a length field has room
/// for, can be told apart from what follows them.
pub proof fn lemma_str_prefix(p: Seq<u8>, q: Seq<u8>, s: Seq<u8>, t: Seq<u8>)
    requires
        encode(RlpItem::Str(p)) + s == encode(RlpItem::Str(q)) + t,
        p.len() == q.len() || (p.len() < length_limit() && q.len() < length_limit()),
    ensures
        p == q,
        s == t,
{
    if p.len() < length_limit() {
        lemma_prefix_free(RlpItem::Str(p), RlpItem::Str(q), s, t);
    } else {
        let all = encode(RlpItem::Str(p)) + s;
        let n = 1 + length_field(p.len()).len() as int;
        let m = n + p.len() as int;
        assert(p =~= all.subrange(n, m));
        assert(q =~= all.subrange(n, m));
        assert(s =~= all.subrange(m, all.len() as int));
        assert(t =~= all.subrange(m, all.len() as int));
    }
}

/// The encoding of a number of up to four bytes is one to five bytes long.
pub proof fn lemma_uint_len(n: nat)
    requires
        n < length_limit(),
    ensures
        1 <= encode(uint_item(n)).len() <= 5,
{
    lemma_be_bytes_len(n);
}

/// A number that fits in `width` bytes has no more than that.
pub proof fn lemma_uint_bytes(n: nat, width: nat)
    requires
        width == 1 && n < 0x100 || width == 4 && n < length_limit(),
    ensures
        be_bytes(n).len() <= width,
{
    reveal_with_fuel(be_bytes, 6);
}

/// The encodings of three items, one after the other.
pub proof fn lemma_three(items: Seq<RlpItem>)
    requires
        items.len() == 3,
    ensures
        encode_all(items) == encode(items[0]) + (encode(items[1]) + encode(items[2])),
{
    let b = items.subrange(1, 3);
    let c = b.subrange(1, 2);
    let none = c.subrange(1, 1);
    assert(encode_all(none) =~= Seq::empty());
    assert(c[0] == items[2]);
    assert(encode_all(c) =~= encode(items[2]));
    assert(encode_all(b) =~= encode(items[1]) + encode(items[2]));
}

/// No two items have the same encoding.
pub proof fn law_encoding_is_injective(a: RlpItem, b: RlpItem)
    requires
        encode(a) == encode(b),
        encode(a).len() < length_limit(),
    ensures
        a == b,
{
    lemma_payload_fits(a);
    lemma_payload_fits(b);
    lemma_prefix_free(a, b, Seq::empty(), Seq::empty());
}

} // verus!
