//! Writing recursive length prefix items with the `rlp` crate's stream.
//!
//! The stream is told how many items a list will have, and closes the list by
//! itself when the last of them has arrived. Its state is modelled as a stack
//! of levels: the output, and above it one level for each list still open.
use vstd::prelude::*;

use crate::rlp_item::{be_bytes, encode, encode_all, encode_list, encode_str, RlpItem};
use crate::rlp_item::lemma_encode_all_push;

verus! {

/// An open list: the items that it still waits for, and the encodings of those
/// it has. The lowest level is the output, which waits for nothing.
pub struct Level {
    pub missing: nat,
    pub body: Seq<u8>,
}

#[verifier::external_type_specification]
#[verifier::external_body]
pub struct ExRlpStream(rlp::RlpStream);

/// The levels of a stream, the output first and the innermost open list last.
pub uninterp spec fn stream_levels(stream: rlp::RlpStream) -> Seq<Level>;

/// The levels after one more encoded item: it goes to the innermost open list,
/// and a list that has all of its items becomes an item of the level below.
pub open spec fn put(levels: Seq<Level>, item: Seq<u8>) -> Seq<Level>
    decreases levels.len(),
{
    let top = levels.last();
    let body = top.body + item;
    if levels.len() <= 1 {
        seq![Level { missing: 0, body }]
    } else if top.missing <= 1 {
        put(levels.drop_last(), encode_list(body))
    } else {
        levels.drop_last().push(Level { missing: (top.missing - 1) as nat, body })
    }
}

/// The levels after a list of `count` items has been announced.
pub open spec fn announce(levels: Seq<Level>, count: nat) -> Seq<Level> {
    if count == 0 {
        put(levels, encode_list(Seq::empty()))
    } else {
        levels.push(Level { missing: count, body: Seq::empty() })
    }
}

/// The levels of a stream into which nothing has been written.
pub open spec fn no_levels() -> Seq<Level> {
    seq![Level { missing: 0, body: Seq::empty() }]
}

/// `rlp::RlpStream::new`: a stream with an empty output and no open list.
#[verifier::external_body]
pub(crate) fn stream_new() -> (res: rlp::RlpStream)
    ensures
        stream_levels(res) == no_levels(),
{
    rlp::RlpStream::new()
}

/// `rlp::RlpStream::begin_list`: announces a list of `count` items. A list of
/// none is written at once.
#[verifier::external_body]
pub(crate) fn stream_begin_list(stream: &mut rlp::RlpStream, count: usize)
    ensures
        stream_levels(*final(stream)) == announce(stream_levels(*old(stream)), count as nat),
{
    stream.begin_list(count);
}

/// `rlp::RlpStream::append` of an unsigned number: writes the encoding of its
/// big-endian bytes without leading zeros.
#[verifier::external_body]
pub(crate) fn stream_append_uint(stream: &mut rlp::RlpStream, value: u64)
    ensures
        stream_levels(*final(stream)) == put(
            stream_levels(*old(stream)),
            encode_str(be_bytes(value as nat)),
        ),
{
    stream.append(&value);
}

/// `rlp::RlpStream::append` of a byte slice: writes the encoding of the bytes.
#[verifier::external_body]
pub(crate) fn stream_append_bytes(stream: &mut rlp::RlpStream, value: &[u8])
    ensures
        stream_levels(*final(stream)) == put(stream_levels(*old(stream)), encode_str(value@)),
{
    stream.append(&value);
}

/// `rlp::RlpStream::out`: hands out the output. The call panics while a list
/// is open, which the precondition rules out.
#[verifier::external_body]
pub(crate) fn stream_out(stream: rlp::RlpStream) -> (res: Vec<u8>)
    requires
        stream_levels(stream).len() == 1,
    ensures
        res@ == stream_levels(stream)[0].body,
{
    stream.out().to_vec()
}

/// The levels that a list of `count` items leaves above `levels` once the
/// items `done` of it are written.
pub open spec fn filling(levels: Seq<Level>, done: Seq<RlpItem>, count: nat) -> Seq<Level> {
    if done.len() < count {
        levels.push(Level { missing: (count - done.len()) as nat, body: encode_all(done) })
    } else {
        put(levels, encode(RlpItem::List(done)))
    }
}

/// A stream always has its output.
pub proof fn lemma_put_keeps_output(levels: Seq<Level>, item: Seq<u8>)
    requires
        levels.len() >= 1,
    ensures
        put(levels, item).len() >= 1,
    decreases levels.len(),
{
    let top = levels.last();
    if levels.len() > 1 && top.missing <= 1 {
        lemma_put_keeps_output(levels.drop_last(), encode_list(top.body + item));
    }
}

/// A list that has just been announced has none of its items.
pub proof fn lemma_list_opened(levels: Seq<Level>, items: Seq<RlpItem>)
    requires
        levels.len() >= 1,
    ensures
        announce(levels, items.len()) == filling(levels, items.take(0), items.len()),
        filling(levels, items.take(0), items.len()).len() >= 1,
{
    assert(items.take(0) =~= Seq::empty());
    assert(encode_all(items.take(0)) =~= Seq::empty());
    lemma_put_keeps_output(levels, encode_list(Seq::empty()));
}

/// The next item of an open list has been written.
pub proof fn lemma_list_item(levels: Seq<Level>, items: Seq<RlpItem>, at: int)
    requires
        levels.len() >= 1,
        0 <= at < items.len(),
    ensures
        put(filling(levels, items.take(at), items.len()), encode(items[at])) == filling(
            levels,
            items.take(at + 1),
            items.len(),
        ),
        filling(levels, items.take(at + 1), items.len()).len() >= 1,
{
    let open = filling(levels, items.take(at), items.len());
    lemma_encode_all_push(items.take(at), items[at]);
    assert(items.take(at).push(items[at]) =~= items.take(at + 1));
    assert(open.drop_last() =~= levels);
    assert(open.last().body + encode(items[at]) =~= encode_all(items.take(at + 1)));
    lemma_put_keeps_output(open, encode(items[at]));
}

/// A list that has all of its items is an item of the level below.
pub proof fn lemma_list_closed(levels: Seq<Level>, items: Seq<RlpItem>)
    requires
        levels.len() >= 1,
    ensures
        filling(levels, items.take(items.len() as int), items.len()) == put(
            levels,
            encode(RlpItem::List(items)),
        ),
{
    assert(items.take(items.len() as int) =~= items);
}

/// An item written to a stream with no open list is its output.
pub proof fn lemma_output(item: RlpItem)
    ensures
        put(no_levels(), encode(item)).len() == 1,
        put(no_levels(), encode(item))[0].body == encode(item),
{
    assert(Seq::<u8>::empty() + encode(item) =~= encode(item));
}

} // verus!
