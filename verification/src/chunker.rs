//! The packer itself: an accumulator that fills one buffer at a time.

use crate::packing::{
    bounded, empty_state, lemma_push_item_bounded, lemma_sealed_bounded, octets_of, push_item,
    sealed, PackState,
};
use err_rs::ErrorLevel;
use std::io;
use vstd::prelude::*;
use vstd::slice::slice_to_vec;

verus! {

/// Why packing or encoding failed.
#[derive(Debug)]
pub enum DatagramChunkerError {
    /// A single item is longer than a whole datagram may be.
    ItemSizeTooBig,
    /// The message codec reported an error.
    IoError(io::Error),
}

impl DatagramChunkerError {
    /// How severe the error is: an oversized item can never be sent and is
    /// critical, a codec failure is informative.
    pub fn error_level(&self) -> (level: ErrorLevel)
        ensures
            level == (match *self {
                DatagramChunkerError::ItemSizeTooBig => ErrorLevel::Critical,
                DatagramChunkerError::IoError(_) => ErrorLevel::Info,
            }),
    {
        match self {
            DatagramChunkerError::ItemSizeTooBig => ErrorLevel::Critical,
            DatagramChunkerError::IoError(_) => ErrorLevel::Info,
        }
    }
}

impl From<io::Error> for DatagramChunkerError {
    fn from(value: io::Error) -> (error: Self) {
        Self::IoError(value)
    }
}

impl vstd::std_specs::convert::FromSpecImpl<io::Error> for DatagramChunkerError {
    open spec fn obeys_from_spec() -> bool {
        true
    }

    open spec fn from_spec(value: io::Error) -> Self {
        DatagramChunkerError::IoError(value)
    }
}

/// Packs strings of octets into buffers of at most `max_size` octets, in the order
/// in which they are pushed and without ever splitting one.
pub struct DatagramChunker {
    datagrams: Vec<Vec<u8>>,
    current: Vec<u8>,
    max_size: usize,
}

impl View for DatagramChunker {
    type V = PackState;

    closed spec fn view(&self) -> PackState {
        PackState { completed: octets_of(self.datagrams@), current: self.current@ }
    }
}

impl DatagramChunker {
    /// The largest length a datagram may have.
    pub closed spec fn max_size(&self) -> nat {
        self.max_size as nat
    }

    /// The invariant of a packer: no buffer it holds is longer than
    /// `max_size`, and no sealed buffer is empty.
    pub open spec fn wf(&self) -> bool {
        bounded(self@, self.max_size())
    }

    /// An empty packer for datagrams of at most `max_size` octets. With a size
    /// of zero it takes empty items only.
    pub fn new(max_size: usize) -> (chunker: Self)
        ensures
            chunker.wf(),
            chunker@ == empty_state(),
            chunker.max_size() == max_size,
    {
        let chunker = Self { current: Vec::new(), datagrams: Vec::new(), max_size };
        assert(chunker@.completed =~= Seq::empty());
        chunker
    }

    /// Adds one item. An item longer than `max_size` is refused and the packer
    /// stays as it was. Any other item is appended to the buffer that is being
    /// filled if it still fits there, up to and including the last free octet;
    /// if not, that buffer is sealed and the item starts the next one.
    pub fn push(&mut self, buf: &[u8]) -> (result: Result<(), DatagramChunkerError>)
        requires
            old(self).wf(),
        ensures
            final(self).wf(),
            final(self).max_size() == old(self).max_size(),
            buf@.len() > old(self).max_size() ==> result == Err::<(), _>(
                DatagramChunkerError::ItemSizeTooBig,
            ) && *final(self) == *old(self),
            buf@.len() <= old(self).max_size() ==> result is Ok && final(self)@ == push_item(
                old(self)@,
                buf@,
                old(self).max_size(),
            ),
    {
        if buf.len() > self.max_size {
            return Err(DatagramChunkerError::ItemSizeTooBig);
        }
        if buf.len() > self.max_size - self.current.len() {
            let mut sealing = slice_to_vec(buf);
            std::mem::swap(&mut self.current, &mut sealing);
            self.datagrams.push(sealing);
            assert(self@.completed =~= old(self)@.completed.push(old(self)@.current));
        } else {
            self.current.extend_from_slice(buf);
            assert(self@.current =~= old(self)@.current + buf@);
        }
        proof {
            lemma_push_item_bounded(old(self)@, buf@, old(self).max_size());
        }
        Ok(())
    }

    /// Ends packing and hands out the datagrams in the order in which they
    /// were started. The buffer that was being filled comes last, unless it is
    /// empty: no empty datagram is ever handed out.
    pub fn finalize(self) -> (datagrams: Vec<Vec<u8>>)
        requires
            self.wf(),
        ensures
            octets_of(datagrams@) == sealed(self@),
            datagrams@.len() == sealed(self@).len(),
            forall|i: int|
                0 <= i < datagrams@.len() ==> 0 < (#[trigger] datagrams@[i])@.len()
                    <= self.max_size(),
    {
        let DatagramChunker { mut datagrams, current, max_size: _ } = self;
        if !current.is_empty() {
            datagrams.push(current);
        }
        assert(octets_of(datagrams@) =~= sealed(self@));
        proof {
            lemma_sealed_bounded(self@, self.max_size());
            assert forall|i: int| 0 <= i < datagrams@.len() implies 0 < (
            #[trigger] datagrams@[i])@.len() <= self.max_size() by {
                assert(datagrams@[i]@ == sealed(self@)[i]);
            }
        }
        datagrams
    }
}

} // verus!
