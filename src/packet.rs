use vstd::prelude::*;

verus! {

/// Start of a data packet.
pub const SOH: u8 = 0x01;
/// End of transmission.
pub const EOT: u8 = 0x04;
/// Positive acknowledgement.
pub const ACK: u8 = 0x06;
/// Negative acknowledgement; also the receiver's "ready" signal.
pub const NAK: u8 = 0x15;
/// Cancellation: fatal when read by either side.
pub const CAN: u8 = 0x18;

/// Number of payload bytes in one packet.
pub const PACKET_LEN: usize = 128;

/// Plain (unbounded) sum of a byte sequence.
pub open spec fn byte_sum(s: Seq<u8>) -> nat
    decreases s.len(),
{
    if s.len() == 0 {
        0
    } else {
        byte_sum(s.drop_last()) + s.last() as nat
    }
}

/// The packet checksum: the 8-bit wrapping sum of the bytes, reduced modulo 255.
pub open spec fn checksum_of(s: Seq<u8>) -> u8 {
    ((byte_sum(s) % 256) % 255) as u8
}

/// The complement byte that follows a sequence number on the wire.
pub open spec fn complement_of(n: u8) -> u8 {
    (255 - n) as u8
}

/// The wire image of one data packet numbered `n` carrying `data`.
pub open spec fn frame(n: u8, data: Seq<u8>) -> Seq<u8> {
    seq![SOH, n, complement_of(n)] + data + seq![checksum_of(data)]
}

/// The sequence number that follows `n`, wrapping from 255 to 0.
pub open spec fn next_number(n: u8) -> u8 {
    ((n as int + 1) % 256) as u8
}

/// Computes the checksum of a packet's payload.
pub fn checksum(data: &[u8]) -> (r: u8)
    ensures
        r == checksum_of(data@),
{
    let mut acc: u8 = 0;
    let mut i: usize = 0;
    while i < data.len()
        invariant
            i <= data@.len(),
            acc as nat == byte_sum(data@.subrange(0, i as int)) % 256,
        decreases data@.len() - i,
    {
        proof {
            let p = data@.subrange(0, i as int + 1);
            assert(p.drop_last() == data@.subrange(0, i as int));
        }
        acc = acc.wrapping_add(data[i]);
        i = i + 1;
    }
    assert(data@.subrange(0, data@.len() as int) == data@);
    acc % 255
}

/// The complement byte of sequence number `n`.
pub fn complement(n: u8) -> (r: u8)
    ensures
        r == complement_of(n),
{
    255 - n
}

} // verus!
