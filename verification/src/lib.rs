//! Packs independently encoded messages into buffers of octets ("datagrams")
//! of a bounded size, and reads the messages back out of such buffers.
//!
//! The packing is a greedy single pass: an item goes into the buffer that is
//! being filled if it fits, otherwise that buffer is sealed and the item
//! starts a new one. Items are never split and never reordered.
//!
//! * [`chunker`] holds the packer and its error type.
//! * [`codec`] holds the drivers that take whole lists of messages or
//!   datagrams; the messages encode and decode themselves through the
//!   traits of `flood_rs`.
//! * [`packing`] is the model of packing over strings of octets, with what
//!   holds of it: capacity, the boundary case, and that no octet is lost.
//! * [`framing`] is the model of messages inside datagrams: no message is
//!   split, and reading the datagrams gives the messages back.
//! * [`optimal`] shows that no packing that keeps messages whole and in order
//!   takes fewer datagrams.
//! * [`streams`] and [`outside`] declare what is used from outside crates.

pub mod chunker;
pub mod codec;
pub mod framing;
pub mod optimal;
pub mod outside;
pub mod packing;
pub mod prelude;
pub mod streams;

pub use chunker::{DatagramChunker, DatagramChunkerError};
pub use codec::{
    deserialize_datagram, deserialize_datagrams, serialize_to_datagrams, take_list, take_read,
};
