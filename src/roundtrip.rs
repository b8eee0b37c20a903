use vstd::prelude::*;

use crate::packet::{checksum_of, complement_of, frame, next_number, ACK, CAN, EOT, NAK, SOH};
use crate::xmodem::{
    chunk_len, greeting, pad, receive_attempts, receive_packet, receive_run, send_attempts,
    send_end, send_packet, transmit_run, Exchange, XmodemError,
};

verus! {

/// Number of packets that carry `len` source bytes.
pub open spec fn packet_count(len: nat) -> nat {
    (len + 127) / 128
}

/// `data` followed by zeros up to the next multiple of 128 bytes.
pub open spec fn padded(data: Seq<u8>) -> Seq<u8> {
    data + Seq::new(((128 - data.len() % 128) % 128) as nat, |i: int| 0u8)
}

/// `k` acknowledgements.
pub open spec fn acks(k: nat) -> Seq<u8> {
    Seq::new(k, |i: int| ACK)
}

/// What a receiver answers to a clean transfer of `k` packets.
pub open spec fn replies(started: bool, k: nat) -> Seq<u8> {
    greeting(started) + acks(k) + seq![NAK, ACK]
}

/// What a sender writes for `data`, starting at packet number `n`, when
/// every packet is accepted at once.
pub open spec fn wire(n: u8, data: Seq<u8>) -> Seq<u8>
    decreases data.len(),
{
    if data.len() == 0 {
        seq![EOT, EOT]
    } else {
        let c = chunk_len(data);
        frame(n, pad(data.take(c as int))) + wire(next_number(n), data.skip(c as int))
    }
}

/// Whether no packet of `data`, numbered from `n`, carries the cancellation
/// byte in its number, complement or checksum. A receiver reads such a byte
/// as the peer cancelling.
pub open spec fn clean(n: u8, data: Seq<u8>) -> bool
    decreases data.len(),
{
    if data.len() == 0 {
        true
    } else {
        let c = chunk_len(data);
        &&& n != CAN
        &&& complement_of(n) != CAN
        &&& checksum_of(pad(data.take(c as int))) != CAN
        &&& clean(next_number(n), data.skip(c as int))
    }
}

/// The padded packets of `data`, one after another.
pub open spec fn chunks(data: Seq<u8>) -> Seq<u8>
    decreases data.len(),
{
    if data.len() == 0 {
        Seq::empty()
    } else {
        let c = chunk_len(data);
        pad(data.take(c as int)) + chunks(data.skip(c as int))
    }
}

proof fn lemma_chunks_padded(data: Seq<u8>)
    ensures
        chunks(data) == padded(data),
    decreases data.len(),
{
    if data.len() == 0 {
        assert(padded(data) =~= Seq::<u8>::empty());
    } else if data.len() <= 128 {
        assert(data.skip(data.len() as int) =~= Seq::<u8>::empty());
        assert(data.take(data.len() as int) =~= data);
        assert(chunks(data.skip(data.len() as int)) == Seq::<u8>::empty());
        assert(chunks(data) =~= padded(data));
    } else {
        let rest = data.skip(128);
        lemma_chunks_padded(rest);
        assert(rest.len() % 128 == data.len() % 128) by {
            assert(rest.len() == data.len() - 128);
        }
        assert(pad(data.take(128)) =~= data.take(128));
        assert(chunks(data) =~= padded(data));
    }
}

proof fn lemma_transmit_clean(n: u8, started: bool, data: Seq<u8>, rest: Seq<u8>)
    ensures
        ({
            let inp = replies(started, packet_count(data.len())) + rest;
            let t = transmit_run(n, started, data, inp);
            &&& t.result == Ok::<int, XmodemError>(data.len() as int)
            &&& t.used == replies(started, packet_count(data.len())).len()
            &&& t.sent == wire(n, data)
        }),
    decreases data.len(),
{
    let k = packet_count(data.len());
    let inp = replies(started, k) + rest;
    if data.len() == 0 {
        if started {
            assert(inp[0] == NAK);
            assert(inp.drop_first()[0] == ACK);
        } else {
            assert(inp[0] == NAK);
            assert(inp.drop_first()[0] == NAK);
            assert(inp.drop_first().drop_first()[0] == ACK);
            assert(Seq::<u8>::empty() + seq![EOT, EOT] =~= seq![EOT, EOT]);
        }
    } else {
        let c = chunk_len(data);
        let buf = pad(data.take(c as int));
        let tail = data.skip(c as int);
        assert(buf.len() == 128);
        assert(packet_count(tail.len()) == k - 1);
        let x = send_packet(n, started, buf, inp);
        if started {
            assert(inp[0] == ACK);
            assert(x.used == 1);
            assert(x.sent == frame(n, buf));
        } else {
            assert(inp[0] == NAK);
            assert(inp.drop_first()[0] == ACK);
            assert(x.used == 2);
            assert(x.sent =~= frame(n, buf));
        }
        assert(inp.skip(x.used as int) =~= replies(true, (k - 1) as nat) + rest);
        lemma_transmit_clean(next_number(n), true, tail, rest);
    }
}

proof fn lemma_receive_clean(n: u8, started: bool, data: Seq<u8>, rest: Seq<u8>)
    requires
        clean(n, data),
    ensures
        ({
            let r = receive_run(n, started, wire(n, data) + rest);
            &&& r.result == Ok::<int, XmodemError>((128 * packet_count(data.len())) as int)
            &&& r.data == chunks(data)
            &&& r.used == wire(n, data).len()
            &&& r.sent == replies(started, packet_count(data.len()))
        }),
    decreases data.len(),
{
    let k = packet_count(data.len());
    let inp = wire(n, data) + rest;
    if data.len() == 0 {
        assert(inp[0] == EOT);
        assert(inp.drop_first()[0] == EOT);
        assert(receive_attempts(n, inp).sent =~= seq![NAK, ACK]);
        assert(replies(started, 0) =~= greeting(started) + seq![NAK, ACK]);
        if started {
            assert(receive_packet(n, started, inp).sent =~= seq![NAK, ACK]);
        }
    } else {
        let c = chunk_len(data);
        let buf = pad(data.take(c as int));
        let tail = data.skip(c as int);
        let f = frame(n, buf);
        assert(buf.len() == 128);
        assert(f.len() == 132);
        assert(packet_count(tail.len()) == k - 1);
        assert(inp =~= f + (wire(next_number(n), tail) + rest));
        assert(inp[0] == SOH);
        assert(inp[1] == n);
        assert(inp[2] == complement_of(n));
        assert(inp.subrange(3, 131) =~= buf);
        assert(inp[131] == checksum_of(buf));
        let a = receive_attempts(n, inp);
        assert(a.result == Ok::<int, XmodemError>(128) && a.used == 132 && a.data == buf);
        assert(inp.skip(132) =~= wire(next_number(n), tail) + rest);
        lemma_receive_clean(next_number(n), true, tail, rest);
        let x = receive_packet(n, started, inp);
        assert(x.sent =~= greeting(started) + seq![ACK]);
        assert(replies(started, k) =~= x.sent + replies(true, (k - 1) as nat));
        assert(chunks(data) == buf + chunks(tail));
    }
}

/// A clean transfer round trip: a sender given exactly a receiver's replies
/// reports every source byte and writes the wire image; a receiver given that
/// wire image delivers the data padded with zeros to whole packets and
/// answers with exactly those replies. It holds whenever no packet number,
/// complement or checksum equals the cancellation byte.
pub proof fn lemma_round_trip(data: Seq<u8>)
    requires
        clean(1, data),
    ensures
        ({
            let k = packet_count(data.len());
            let t = transmit_run(1, false, data, replies(false, k));
            let r = receive_run(1, false, t.sent);
            &&& t.result == Ok::<int, XmodemError>(data.len() as int)
            &&& t.used == replies(false, k).len()
            &&& r.result == Ok::<int, XmodemError>((128 * k) as int)
            &&& r.data == padded(data)
            &&& r.used == t.sent.len()
            &&& r.sent == replies(false, k)
        }),
{
    let k = packet_count(data.len());
    assert(replies(false, k) + Seq::<u8>::empty() =~= replies(false, k));
    lemma_transmit_clean(1, false, data, Seq::empty());
    assert(wire(1, data) + Seq::<u8>::empty() =~= wire(1, data));
    lemma_receive_clean(1, false, data, Seq::empty());
    lemma_chunks_padded(data);
}

} // verus!
