//! The octet streams of `flood_rs` as this crate sees them. Everything in
//! this file is believed, not proved: each contract restates what the source
//! of the stream shows.

use flood_rs::in_stream::InOctetStream;
use flood_rs::out_stream::OutOctetStream;
use flood_rs::{Deserialize, ReadOctetStream, Serialize};
use std::io;
use vstd::prelude::*;

verus! {

/// `flood_rs`'s growable stream that messages are written to.
#[verifier::external_type_specification]
#[verifier::external_body]
pub struct ExOutOctetStream(OutOctetStream);

/// `flood_rs`'s read cursor over an owned copy of a buffer.
#[verifier::external_type_specification]
#[verifier::external_body]
pub struct ExInOctetStream(InOctetStream);

/// The octets that were written to an output stream so far.
pub uninterp spec fn written_octets(stream: OutOctetStream) -> Seq<u8>;

/// The octets that an input stream reads from.
pub uninterp spec fn stream_octets(stream: InOctetStream) -> Seq<u8>;

/// How many octets of an input stream lie before its cursor.
pub uninterp spec fn stream_position(stream: InOctetStream) -> nat;

/// `OutOctetStream::new` makes a stream to which nothing was written.
pub assume_specification[ OutOctetStream::new ]() -> (stream: OutOctetStream)
    ensures
        written_octets(stream) == Seq::<u8>::empty(),
;

/// `OutOctetStream::octets_ref` borrows exactly what was written.
pub assume_specification[ OutOctetStream::octets_ref ](stream: &OutOctetStream) -> (octets: &[u8])
    ensures
        octets@ == written_octets(*stream),
;

/// `Serialize::serialize`, called on `message` with `stream` as its target.
/// What is written, and whether writing succeeds, is up to the message type:
/// nothing is claimed of either.
#[verifier::external_body]
pub(crate) fn write_message<T: Serialize>(message: &T, stream: &mut OutOctetStream) -> (result:
    Result<(), io::Error>) {
    message.serialize(stream)
}

/// `InOctetStream::new` copies `data` and puts the cursor at its start.
pub assume_specification[ InOctetStream::new ](data: &[u8]) -> (stream: InOctetStream)
    ensures
        stream_octets(stream) == data@,
        stream_position(stream) == 0,
;

/// `ReadOctetStream::has_reached_end` of `InOctetStream` compares the cursor's
/// position with the length of the data and moves nothing. The claim is
/// limited to cursors that are not past the end, where the comparison cannot
/// be affected by the width of `usize`.
#[verifier::external_body]
pub(crate) fn has_reached_end(stream: &mut InOctetStream) -> (end: bool)
    ensures
        stream_octets(*final(stream)) == stream_octets(*old(stream)),
        stream_position(*final(stream)) == stream_position(*old(stream)),
        stream_position(*old(stream)) <= stream_octets(*old(stream)).len() ==> (end
            <==> stream_position(*old(stream)) == stream_octets(*old(stream)).len()),
{
    stream.has_reached_end()
}

/// `Cursor::position` of the cursor inside an `InOctetStream`.
#[verifier::external_body]
pub(crate) fn position(stream: &InOctetStream) -> (at: u64)
    ensures
        at == stream_position(*stream),
{
    stream.cursor.position()
}

/// `Deserialize::deserialize`, called for `T` on `stream`. The message type
/// reaches the stream only through `ReadOctetStream`, whose methods read
/// forward from the cursor: the data stays as it is, and the cursor moves
/// neither back nor past the end. Whether a message comes out, and how far
/// the cursor moves, is up to the message type.
#[verifier::external_body]
pub(crate) fn read_message<T: Deserialize>(stream: &mut InOctetStream) -> (result: Result<
    T,
    io::Error,
>)
    ensures
        stream_octets(*final(stream)) == stream_octets(*old(stream)),
        stream_position(*old(stream)) <= stream_octets(*old(stream)).len() ==> stream_position(
            *old(stream),
        ) <= stream_position(*final(stream)) <= stream_octets(*old(stream)).len(),
{
    T::deserialize(stream)
}

/// `io::Error::from` of `ErrorKind::InvalidData`. The error is opaque here,
/// so nothing is claimed of it.
#[verifier::external_body]
pub(crate) fn invalid_data() -> io::Error {
    io::Error::from(io::ErrorKind::InvalidData)
}

} // verus!
