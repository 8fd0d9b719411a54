//! Drivers that take whole lists: messages to datagrams, and datagrams back
//! to messages.

use crate::chunker::{DatagramChunker, DatagramChunkerError};
use crate::packing::{
    all_fit, lemma_flatten_take, lemma_pack_count, octets_of, pack, push_all, within_capacity, Octets,
};
use crate::streams::{
    has_reached_end, invalid_data, position, read_message, stream_octets, stream_position,
    write_message,
};
use flood_rs::in_stream::InOctetStream;
use flood_rs::out_stream::OutOctetStream;
use flood_rs::{Deserialize, Serialize};
use std::fmt::{Debug, Display};
use std::io;
use vstd::prelude::*;

verus! {

/// Whether `datagrams` are what packing makes of some `count` items, none of
/// them longer than `max_size`.
pub open spec fn packed_from(datagrams: Seq<Octets>, count: nat, max_size: nat) -> bool {
    exists|items: Seq<Octets>|
        items.len() == count && all_fit(items, max_size) && datagrams == #[trigger] pack(
            items,
            max_size,
        )
}

/// Whether `messages` can be what reading `octets` to the end gave: every
/// message took at least one octet, so there are no more messages than
/// octets, and there is none exactly where there is no octet.
pub open spec fn one_list<T>(messages: Seq<T>, octets: Octets) -> bool {
    messages.len() <= octets.len() && (messages.len() == 0 <==> octets.len() == 0)
}

/// Whether `parts` holds one list of messages for each of `datagrams`, in
/// the same order, each of them a list that reading its datagram can give.
pub open spec fn one_list_each<T>(parts: Seq<Seq<T>>, datagrams: Seq<Octets>) -> bool {
    &&& parts.len() == datagrams.len()
    &&& forall|i: int| 0 <= i < parts.len() ==> one_list(#[trigger] parts[i], datagrams[i])
}

/// Encodes each message and packs the encodings, in order, into datagrams of
/// at most `max_datagram_size` octets. No message yields no datagram. The
/// first message that fails to encode, or whose encoding is longer than a
/// datagram may be, ends the call with that error.
pub fn serialize_to_datagrams<T>(messages: &[T], max_datagram_size: usize) -> (result: Result<
    Vec<Vec<u8>>,
    DatagramChunkerError,
>) where T: Serialize + Debug
    ensures
        messages@.len() == 0 ==> result is Ok,
        result matches Ok(datagrams) ==> packed_from(
            octets_of(datagrams@),
            messages@.len(),
            max_datagram_size as nat,
        ) && within_capacity(octets_of(datagrams@), max_datagram_size as nat) && datagrams@.len()
            <= messages@.len(),
{
    let mut chunker = DatagramChunker::new(max_datagram_size);
    let ghost mut items: Seq<Octets> = Seq::empty();
    let mut i: usize = 0;
    while i < messages.len()
        invariant
            i <= messages@.len(),
            chunker.wf(),
            chunker.max_size() == max_datagram_size,
            items.len() == i,
            all_fit(items, max_datagram_size as nat),
            chunker@ == push_all(crate::packing::empty_state(), items, max_datagram_size as nat),
        decreases messages@.len() - i,
    {
        let mut temp = OutOctetStream::new();
        match write_message(&messages[i], &mut temp) {
            Ok(()) => {},
            Err(e) => {
                return Err(DatagramChunkerError::from(e));
            },
        }
        let octets = temp.octets_ref();
        match chunker.push(octets) {
            Ok(()) => {},
            Err(e) => {
                return Err(e);
            },
        }
        proof {
            let grown = items.push(octets@);
            assert(grown.drop_last() =~= items);
            items = grown;
        }
        i += 1;
    }
    let datagrams = chunker.finalize();
    proof {
        assert(octets_of(datagrams@) == pack(items, max_datagram_size as nat));
        lemma_pack_count(items, max_datagram_size as nat);
        assert forall|k: int| 0 <= k < datagrams@.len() implies 0 < (#[trigger] octets_of(
            datagrams@,
        )[k]).len() <= max_datagram_size by {
            assert(octets_of(datagrams@)[k] == datagrams@[k]@);
        }
    }
    Ok(datagrams)
}

/// Decides what becomes of one read. `read` is what reading a message gave,
/// `before` and `after` are the cursor's positions around it. An error is
/// handed on. A message that took no octet is refused with an error of the
/// kind `InvalidData`, since reading on would never reach the end. Any other
/// message is appended to `messages` as the last one. Where the call fails,
/// `messages` stays as it was.
pub fn take_read<T>(
    messages: &mut Vec<T>,
    read: Result<T, io::Error>,
    before: u64,
    after: u64,
) -> (result: Result<(), io::Error>)
    ensures
        read matches Err(e) ==> result == Err::<(), io::Error>(e) && final(messages)@ == old(
            messages,
        )@,
        read matches Ok(m) ==> (after == before ==> result is Err && final(messages)@ == old(
            messages,
        )@) && (after != before ==> result is Ok && final(messages)@ == old(messages)@.push(m)),
{
    match read {
        Err(e) => Err(e),
        Ok(message) => {
            if after == before {
                Err(invalid_data())
            } else {
                messages.push(message);
                Ok(())
            }
        },
    }
}

/// Reads messages from `buf` until its last octet is consumed, each read
/// starting where the one before it stopped, and hands each read to
/// [`take_read`]. An empty buffer holds no message and is never read from.
/// The first read that `take_read` refuses ends the call with that error.
pub fn deserialize_datagram<T>(buf: &[u8]) -> (result: Result<Vec<T>, io::Error>) where
    T: Deserialize + Display,

    ensures
        buf@.len() == 0 ==> result is Ok,
        result matches Ok(messages) ==> one_list(messages@, buf@),
{
    let mut messages: Vec<T> = Vec::new();
    let mut in_stream = InOctetStream::new(buf);
    while !has_reached_end(&mut in_stream)
        invariant
            stream_octets(in_stream) == buf@,
            stream_position(in_stream) <= buf@.len(),
            messages@.len() <= stream_position(in_stream),
            messages@.len() == 0 <==> stream_position(in_stream) == 0,
        decreases buf@.len() - stream_position(in_stream),
    {
        let before = position(&in_stream);
        let read = read_message::<T>(&mut in_stream);
        let after = position(&in_stream);
        take_read(&mut messages, read, before, after)?;
    }
    Ok(messages)
}

/// Decides what becomes of what reading one datagram gave. An error is
/// handed on as it is, and `all` stays as it was. A list of messages is
/// joined to the end of `all`, in its order; an empty list adds nothing.
pub fn take_list<T>(all: &mut Vec<T>, read: Result<Vec<T>, io::Error>) -> (result: Result<
    (),
    io::Error,
>)
    ensures
        read matches Err(e) ==> result == Err::<(), io::Error>(e) && final(all)@ == old(all)@,
        read matches Ok(list) ==> result is Ok && final(all)@ == old(all)@ + list@,
{
    match read {
        Err(e) => Err(e),
        Ok(mut list) => {
            all.append(&mut list);
            Ok(())
        },
    }
}

/// Reads each datagram in turn with [`deserialize_datagram`] and hands what
/// came back to [`take_list`], starting from no message. An empty datagram
/// adds nothing, wherever it stands. The first datagram that `take_list`
/// refuses ends the call with that error; no datagram after it is read, and
/// what was read before it is dropped.
pub fn deserialize_datagrams<T>(datagrams: Vec<Vec<u8>>) -> (result: Result<Vec<T>, io::Error>) where
    T: Deserialize + Display,

    ensures
        octets_of(datagrams@).flatten().len() == 0 ==> result is Ok,
        result matches Ok(messages) ==> exists|parts: Seq<Seq<T>>|
            one_list_each(parts, octets_of(datagrams@)) && #[trigger] parts.flatten()
                == messages@,
        result matches Ok(messages) ==> messages@.len() <= octets_of(datagrams@).flatten().len()
            && (messages@.len() == 0 <==> octets_of(datagrams@).flatten().len() == 0),
{
    let mut all_messages: Vec<T> = Vec::new();
    let ghost buffers = octets_of(datagrams@);
    let ghost mut parts: Seq<Seq<T>> = Seq::empty();
    let mut i: usize = 0;
    proof {
        assert(parts.flatten() =~= all_messages@);
    }
    while i < datagrams.len()
        invariant
            i <= datagrams@.len(),
            buffers == octets_of(datagrams@),
            one_list_each(parts, buffers.take(i as int)),
            parts.flatten() == all_messages@,
            all_messages@.len() <= buffers.take(i as int).flatten().len(),
            all_messages@.len() == 0 <==> buffers.take(i as int).flatten().len() == 0,
            buffers.take(i as int).flatten().len() <= buffers.flatten().len(),
        decreases datagrams@.len() - i,
    {
        proof {
            lemma_flatten_take(buffers, i as int);
        }
        let read = deserialize_datagram::<T>(datagrams[i].as_slice());
        let ghost list = if read is Ok {
            read->Ok_0@
        } else {
            Seq::empty()
        };
        take_list(&mut all_messages, read)?;
        proof {
            parts.lemma_flatten_push(list);
            assert(buffers.take(i + 1) =~= buffers.take(i as int).push(buffers[i as int]));
            parts = parts.push(list);
        }
        i += 1;
    }
    proof {
        assert(buffers.take(i as int) =~= buffers);
    }
    Ok(all_messages)
}

} // verus!
