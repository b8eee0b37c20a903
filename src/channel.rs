use vstd::prelude::*;

verus! {

/// A sequence of bytes, as the channel model speaks of them.
pub type Bytes = Seq<u8>;

/// A blocking duplex byte stream that the protocol engine runs over.
///
/// A channel is described by two sequences: `incoming`, the bytes the peer
/// will still deliver before the line ends or times out, and `outgoing`,
/// every byte written to it so far. Writes always complete.
pub trait Channel {
    spec fn incoming(&self) -> Seq<u8>;

    spec fn outgoing(&self) -> Seq<u8>;

    /// Reads the next byte, or `None` once the peer has nothing more to deliver.
    fn recv(&mut self) -> (r: Option<u8>)
        ensures
            old(self).incoming().len() == 0 ==> r is None && final(self).incoming()
                == old(self).incoming(),
            old(self).incoming().len() > 0 ==> r == Some(old(self).incoming()[0])
                && final(self).incoming() == old(self).incoming().drop_first(),
            final(self).outgoing() == old(self).outgoing(),
    ;

    /// Writes one byte.
    fn send(&mut self, byte: u8)
        ensures
            final(self).incoming() == old(self).incoming(),
            final(self).outgoing() == old(self).outgoing().push(byte),
    ;

    /// Pushes out whatever the channel buffers.
    fn flush(&mut self)
        ensures
            final(self).incoming() == old(self).incoming(),
            final(self).outgoing() == old(self).outgoing(),
    ;
}

} // verus!
