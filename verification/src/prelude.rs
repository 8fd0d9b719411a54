//! The items that most callers need, in one import.

pub use crate::chunker::{DatagramChunker, DatagramChunkerError};
pub use crate::codec::{
    deserialize_datagram, deserialize_datagrams, serialize_to_datagrams, take_list, take_read,
};
