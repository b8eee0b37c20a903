use vstd::prelude::*;

use crate::channel::Channel;
use crate::packet::{
    byte_sum, checksum, checksum_of, complement, complement_of, frame, next_number, ACK, CAN, EOT, NAK,
    PACKET_LEN, SOH,
};

verus! {

/// Why a transfer step failed.
#[derive(Debug, Clone, Copy, PartialEq, Eq, Structural)]
pub enum XmodemError {
    /// A packet buffer of the wrong size; nothing was read or written.
    BadLength,
    /// The peer sent a byte the protocol does not allow at that point.
    Protocol,
    /// The peer sent the cancellation byte.
    Aborted,
    /// Ten attempts at one packet were all refused.
    RetriesExhausted,
    /// The channel delivered nothing where a byte was needed.
    Channel,
}

/// What one protocol exchange does on a channel: its result, the payload it
/// delivers, how many incoming bytes it consumes and which bytes it writes.
pub struct Exchange {
    pub result: Result<int, XmodemError>,
    pub data: Seq<u8>,
    pub used: nat,
    pub sent: Seq<u8>,
}

pub open spec fn failed(e: XmodemError, used: nat, sent: Seq<u8>) -> Exchange {
    Exchange { result: Err(e), data: Seq::empty(), used, sent }
}

/// `x`, preceded by `used` consumed bytes and the writes `sent`.
pub open spec fn after(used: nat, sent: Seq<u8>, x: Exchange) -> Exchange {
    Exchange { result: x.result, data: x.data, used: used + x.used, sent: sent + x.sent }
}

/// How a single expected byte is met: `None` if `inp` starts with `want`.
pub open spec fn expect(inp: Seq<u8>, want: u8) -> Option<XmodemError> {
    if inp.len() == 0 {
        Some(XmodemError::Channel)
    } else if inp[0] == CAN {
        Some(XmodemError::Aborted)
    } else if inp[0] != want {
        Some(XmodemError::Protocol)
    } else {
        None
    }
}

/// Incoming bytes consumed by one read attempt.
pub open spec fn one_if_any(inp: Seq<u8>) -> nat {
    if inp.len() == 0 {
        0
    } else {
        1
    }
}

/// The receiver's side of one packet (handshake already done), expecting
/// packet number `n`; a checksum mismatch is answered with NAK and the packet
/// is read again.
pub open spec fn receive_attempts(n: u8, inp: Seq<u8>) -> Exchange
    decreases inp.len(),
{
    if inp.len() == 0 {
        failed(XmodemError::Channel, 0, Seq::empty())
    } else if inp[0] == CAN {
        failed(XmodemError::Aborted, 1, Seq::empty())
    } else if inp[0] == EOT {
        match expect(inp.drop_first(), EOT) {
            Some(e) => failed(e, 1 + one_if_any(inp.drop_first()), seq![NAK]),
            None => Exchange { result: Ok(0), data: Seq::empty(), used: 2, sent: seq![NAK, ACK] },
        }
    } else if inp[0] != SOH {
        failed(XmodemError::Protocol, 1, Seq::empty())
    } else if inp.len() < 2 {
        failed(XmodemError::Channel, 1, Seq::empty())
    } else if inp[1] == CAN {
        failed(XmodemError::Aborted, 2, Seq::empty())
    } else if inp[1] != n {
        failed(XmodemError::Protocol, 2, seq![CAN])
    } else if inp.len() < 3 {
        failed(XmodemError::Channel, 2, Seq::empty())
    } else if inp[2] == CAN {
        failed(XmodemError::Aborted, 3, Seq::empty())
    } else if inp[2] != complement_of(n) {
        failed(XmodemError::Protocol, 3, seq![CAN])
    } else if inp.len() < 132 {
        failed(XmodemError::Channel, inp.len(), Seq::empty())
    } else if inp[131] == CAN {
        failed(XmodemError::Aborted, 132, Seq::empty())
    } else if inp[131] == checksum_of(inp.subrange(3, 131)) {
        Exchange { result: Ok(128), data: inp.subrange(3, 131), used: 132, sent: seq![ACK] }
    } else {
        after(132, seq![NAK], receive_attempts(n, inp.subrange(132, inp.len() as int)))
    }
}

/// The receiver's side of one packet: the handshake NAK if not yet sent, then
/// `receive_attempts`.
pub open spec fn receive_packet(n: u8, started: bool, inp: Seq<u8>) -> Exchange {
    if started {
        receive_attempts(n, inp)
    } else {
        after(0, seq![NAK], receive_attempts(n, inp))
    }
}

/// The sender's side of one full packet with at most `k` attempts left.
pub open spec fn send_attempts(n: u8, data: Seq<u8>, inp: Seq<u8>, k: nat) -> Exchange
    decreases k,
{
    let f = frame(n, data);
    if inp.len() == 0 {
        failed(XmodemError::Channel, 0, f)
    } else if inp[0] == ACK {
        Exchange { result: Ok(128), data: Seq::empty(), used: 1, sent: f }
    } else if inp[0] == NAK {
        if k <= 1 {
            failed(XmodemError::RetriesExhausted, 1, f)
        } else {
            after(1, f, send_attempts(n, data, inp.drop_first(), (k - 1) as nat))
        }
    } else if inp[0] == CAN {
        failed(XmodemError::Aborted, 1, f)
    } else {
        failed(XmodemError::Protocol, 1, f)
    }
}

/// The sender's end-of-transmission exchange: EOT, NAK, EOT, ACK.
pub open spec fn send_end(inp: Seq<u8>) -> Exchange {
    match expect(inp, NAK) {
        Some(e) => failed(e, one_if_any(inp), seq![EOT]),
        None => match expect(inp.drop_first(), ACK) {
            Some(e) => failed(e, 1 + one_if_any(inp.drop_first()), seq![EOT, EOT]),
            None => Exchange { result: Ok(0), data: Seq::empty(), used: 2, sent: seq![EOT, EOT] },
        },
    }
}

/// The sender's side once the handshake is done: an empty buffer ends the
/// transfer, a full one is sent with up to ten attempts.
pub open spec fn send_body(n: u8, buf: Seq<u8>, inp: Seq<u8>) -> Exchange {
    if buf.len() == 0 {
        send_end(inp)
    } else {
        send_attempts(n, buf, inp, 10)
    }
}

/// The sender's side of one `write_packet` call.
pub open spec fn send_packet(n: u8, started: bool, buf: Seq<u8>, inp: Seq<u8>) -> Exchange {
    if buf.len() != 0 && buf.len() != 128 {
        failed(XmodemError::BadLength, 0, Seq::empty())
    } else if started {
        send_body(n, buf, inp)
    } else {
        match expect(inp, NAK) {
            Some(e) => failed(e, one_if_any(inp), Seq::empty()),
            None => after(1, Seq::empty(), send_body(n, buf, inp.drop_first())),
        }
    }
}

/// Whether the sender has seen the handshake after one `write_packet` call.
pub open spec fn send_started(started: bool, buf: Seq<u8>, inp: Seq<u8>) -> bool {
    started || ((buf.len() == 0 || buf.len() == 128) && expect(inp, NAK) is None)
}

/// An executable result agrees with a modelled one.
pub open spec fn agrees(r: Result<usize, XmodemError>, m: Result<int, XmodemError>) -> bool {
    match r {
        Ok(v) => m == Ok::<int, XmodemError>(v as int),
        Err(e) => m == Err::<int, XmodemError>(e),
    }
}

proof fn lemma_skip_skip(s: Seq<u8>, a: int, b: int)
    requires
        0 <= a,
        0 <= b,
        a + b <= s.len(),
    ensures
        s.skip(a).skip(b) == s.skip(a + b),
{
    assert(s.skip(a).skip(b) =~= s.skip(a + b));
}

proof fn lemma_after_after(a: nat, s: Seq<u8>, b: nat, t: Seq<u8>, x: Exchange)
    ensures
        after(a, s, after(b, t, x)) == after(a + b, s + t, x),
{
    assert(s + (t + x.sent) =~= (s + t) + x.sent);
}

proof fn lemma_skip3(s: Seq<u8>, a: int, b: int, c: int)
    requires
        0 <= a,
        0 <= b,
        0 <= c,
        a + b + c <= s.len(),
    ensures
        s.skip(a).skip(b).skip(c) == s.skip(a + b + c),
{
    assert(s.skip(a).skip(b).skip(c) =~= s.skip(a + b + c));
}

/// The bytes a receiver writes before its first packet.
pub open spec fn greeting(started: bool) -> Seq<u8> {
    if started {
        Seq::empty()
    } else {
        seq![NAK]
    }
}

/// `r` with `k` added to a success count.
pub open spec fn plus(k: int, r: Result<int, XmodemError>) -> Result<int, XmodemError> {
    match r {
        Ok(v) => Ok(v + k),
        Err(e) => Err(e),
    }
}

/// `x`, preceded by one packet exchange that counted `k` and delivered `data`.
pub open spec fn follow(k: int, first: Exchange, x: Exchange) -> Exchange {
    Exchange {
        result: plus(k, x.result),
        data: first.data + x.data,
        used: first.used + x.used,
        sent: first.sent + x.sent,
    }
}

/// `s` followed by zero bytes up to one packet's length.
pub open spec fn pad(s: Seq<u8>) -> Seq<u8> {
    s + Seq::new((128 - s.len()) as nat, |i: int| 0u8)
}

/// How many source bytes the next packet carries.
pub open spec fn chunk_len(data: Seq<u8>) -> nat {
    if data.len() < 128 {
        data.len()
    } else {
        128
    }
}

/// The whole sending side of a transfer of `data`: packets of 128 bytes, the
/// last one padded with zeros, then the end-of-transmission exchange. The
/// success count is the number of source bytes, padding excluded.
pub open spec fn transmit_run(n: u8, started: bool, data: Seq<u8>, inp: Seq<u8>) -> Exchange
    decreases data.len(),
{
    if data.len() == 0 {
        send_packet(n, started, Seq::empty(), inp)
    } else {
        let k = chunk_len(data);
        let x = send_packet(n, started, pad(data.take(k as int)), inp);
        if x.result is Err {
            x
        } else {
            follow(
                k as int,
                x,
                transmit_run(next_number(n), true, data.skip(k as int), inp.skip(x.used as int)),
            )
        }
    }
}

/// The whole receiving side of a transfer: packets are collected until the
/// sender ends the transfer or an exchange fails. `data` holds every packet
/// accepted, also when a later one fails.
pub open spec fn receive_run(n: u8, started: bool, inp: Seq<u8>) -> Exchange
    decreases inp.len(),
{
    let x = receive_packet(n, started, inp);
    if x.result is Err || x.result == Ok::<int, XmodemError>(0) || !(0 < x.used <= inp.len()) {
        x
    } else {
        follow(128, x, receive_run(next_number(n), true, inp.skip(x.used as int)))
    }
}

proof fn lemma_receive_attempts_used(n: u8, inp: Seq<u8>)
    ensures
        receive_attempts(n, inp).used <= inp.len(),
        receive_attempts(n, inp).result == Ok::<int, XmodemError>(128) ==> receive_attempts(
            n,
            inp,
        ).used >= 132 && receive_attempts(n, inp).data.len() == 128,
        receive_attempts(n, inp).result is Ok ==> receive_attempts(n, inp).result == Ok::<
            int,
            XmodemError,
        >(128) || receive_attempts(n, inp).result == Ok::<int, XmodemError>(0),
        receive_attempts(n, inp).result == Ok::<int, XmodemError>(0) ==> receive_attempts(
            n,
            inp,
        ).data.len() == 0,
        receive_attempts(n, inp).result is Err ==> receive_attempts(n, inp).data.len() == 0,
    decreases inp.len(),
{
    if inp.len() >= 132 && inp[0] == SOH && inp[1] == n && inp[2] == complement_of(n) && inp[131]
        != CAN && inp[131] != checksum_of(inp.subrange(3, 131)) {
        lemma_receive_attempts_used(n, inp.subrange(132, inp.len() as int));
    }
}

proof fn lemma_send_attempts_used(n: u8, data: Seq<u8>, inp: Seq<u8>, k: nat)
    ensures
        send_attempts(n, data, inp, k).used <= inp.len(),
        send_attempts(n, data, inp, k).result is Ok ==> send_attempts(n, data, inp, k).result
            == Ok::<int, XmodemError>(128),
        send_attempts(n, data, inp, k).data.len() == 0,
    decreases k,
{
    if inp.len() > 0 && inp[0] == NAK && k > 1 {
        lemma_send_attempts_used(n, data, inp.drop_first(), (k - 1) as nat);
    }
}

proof fn lemma_send_used(n: u8, started: bool, buf: Seq<u8>, inp: Seq<u8>)
    ensures
        send_packet(n, started, buf, inp).used <= inp.len(),
        send_packet(n, started, buf, inp).data.len() == 0,
        buf.len() == 0 && send_packet(n, started, buf, inp).result is Ok ==> send_packet(
            n,
            started,
            buf,
            inp,
        ).result == Ok::<int, XmodemError>(0),
        buf.len() == 128 && send_packet(n, started, buf, inp).result is Ok ==> send_packet(
            n,
            started,
            buf,
            inp,
        ).result == Ok::<int, XmodemError>(128),
{
    lemma_send_attempts_used(n, buf, inp, 10);
    if inp.len() > 0 {
        lemma_send_attempts_used(n, buf, inp.drop_first(), 10);
    }
}

/// A successful transmission reports exactly the number of source bytes.
pub proof fn lemma_transmit_count(n: u8, started: bool, data: Seq<u8>, inp: Seq<u8>)
    ensures
        transmit_run(n, started, data, inp).result is Ok ==> transmit_run(
            n,
            started,
            data,
            inp,
        ).result == Ok::<int, XmodemError>(data.len() as int),
    decreases data.len(),
{
    if data.len() == 0 {
        lemma_send_used(n, started, data, inp);
    } else {
        let k = chunk_len(data);
        let x = send_packet(n, started, pad(data.take(k as int)), inp);
        if x.result is Ok {
            lemma_transmit_count(next_number(n), true, data.skip(k as int), inp.skip(x.used as int));
        }
    }
}

proof fn lemma_follow_follow(a: int, b: int, d: Seq<u8>, used: nat, sent: Seq<u8>, x: Exchange, z: Exchange)
    ensures
        follow(a, Exchange { result: Ok(0), data: d, used, sent }, follow(b, x, z)) == follow(
            a + b,
            Exchange { result: Ok(0), data: d + x.data, used: used + x.used, sent: sent + x.sent },
            z,
        ),
{
    assert(sent + (x.sent + z.sent) =~= (sent + x.sent) + z.sent);
    assert(d + (x.data + z.data) =~= (d + x.data) + z.data);
}

/// Fills `packet` with the `k` source bytes at `pos`, then zeros.
fn fill_packet(packet: &mut Vec<u8>, data: &[u8], pos: usize, k: usize)
    requires
        old(packet)@.len() == 128,
        k == chunk_len(data@.skip(pos as int)),
        pos <= data@.len(),
    ensures
        final(packet)@ == pad(data@.skip(pos as int).take(k as int)),
{
    let ghost rest = data@.skip(pos as int);
    let len = data.len();
    let mut j: usize = 0;
    while j < PACKET_LEN
        invariant
            j <= 128,
            k <= 128,
            k == chunk_len(rest),
            pos + k <= data@.len(),
            data@.len() == len,
            rest == data@.skip(pos as int),
            packet@.len() == 128,
            forall|m: int| 0 <= m < j ==> #[trigger] packet@[m] == pad(rest.take(k as int))[m],
        decreases 128 - j,
    {
        if j < k {
            packet.set(j, data[pos + j]);
        } else {
            packet.set(j, 0);
        }
        j = j + 1;
    }
    assert(packet@ =~= pad(rest.take(k as int)));
}

/// One end of an XMODEM transfer, bound to its channel.
pub struct Xmodem<T> {
    packet: u8,
    inner: T,
    started: bool,
}

impl<T: Channel> Xmodem<T> {
    pub closed spec fn packet_number(&self) -> u8 {
        self.packet
    }

    pub closed spec fn is_started(&self) -> bool {
        self.started
    }

    pub closed spec fn channel(&self) -> T {
        self.inner
    }

    /// A fresh engine on `inner`, expecting packet 1 and no handshake yet.
    pub fn new(inner: T) -> (r: Self)
        ensures
            r.packet_number() == 1,
            !r.is_started(),
            r.channel() == inner,
    {
        Xmodem { packet: 1, started: false, inner }
    }

    /// Gives the channel back.
    pub fn into_inner(self) -> (r: T)
        ensures
            r == self.channel(),
    {
        self.inner
    }

    /// Reads one byte; the cancellation byte fails with `Aborted`.
    fn read_byte(&mut self) -> (r: Result<u8, XmodemError>)
        ensures
            final(self).packet == old(self).packet,
            final(self).started == old(self).started,
            final(self).inner.outgoing() == old(self).inner.outgoing(),
            old(self).inner.incoming().len() == 0 ==> r == Err::<u8, XmodemError>(
                XmodemError::Channel,
            ) && final(self).inner.incoming() == old(self).inner.incoming(),
            old(self).inner.incoming().len() > 0 ==> final(self).inner.incoming() == old(
                self,
            ).inner.incoming().drop_first() && (old(self).inner.incoming()[0] == CAN ==> r
                == Err::<u8, XmodemError>(XmodemError::Aborted)) && (old(self).inner.incoming()[0]
                != CAN ==> r == Ok::<u8, XmodemError>(old(self).inner.incoming()[0])),
    {
        match self.inner.recv() {
            None => Err(XmodemError::Channel),
            Some(b) => {
                if b == CAN {
                    Err(XmodemError::Aborted)
                } else {
                    Ok(b)
                }
            },
        }
    }

    /// Writes one byte.
    fn write_byte(&mut self, byte: u8)
        ensures
            final(self).packet == old(self).packet,
            final(self).started == old(self).started,
            final(self).inner.incoming() == old(self).inner.incoming(),
            final(self).inner.outgoing() == old(self).inner.outgoing().push(byte),
    {
        self.inner.send(byte);
    }

    /// Reads one byte that must be `byte`; the error is `expect`'s.
    fn expect_byte(&mut self, byte: u8) -> (r: Result<u8, XmodemError>)
        ensures
            final(self).packet == old(self).packet,
            final(self).started == old(self).started,
            final(self).inner.outgoing() == old(self).inner.outgoing(),
            final(self).inner.incoming() == old(self).inner.incoming().skip(
                one_if_any(old(self).inner.incoming()) as int,
            ),
            match expect(old(self).inner.incoming(), byte) {
                None => r == Ok::<u8, XmodemError>(byte),
                Some(e) => r == Err::<u8, XmodemError>(e),
            },
    {
        let read = self.read_byte()?;
        if read == byte {
            Ok(read)
        } else {
            Err(XmodemError::Protocol)
        }
    }

    /// Reads one byte that must be `byte`; on any other byte but the
    /// cancellation byte, sends the cancellation byte and fails.
    fn expect_byte_or_cancel(&mut self, byte: u8) -> (r: Result<u8, XmodemError>)
        ensures
            final(self).packet == old(self).packet,
            final(self).started == old(self).started,
            final(self).inner.incoming() == old(self).inner.incoming().skip(
                one_if_any(old(self).inner.incoming()) as int,
            ),
            match expect(old(self).inner.incoming(), byte) {
                None => r == Ok::<u8, XmodemError>(byte) && final(self).inner.outgoing() == old(
                    self,
                ).inner.outgoing(),
                Some(e) => r == Err::<u8, XmodemError>(e) && final(self).inner.outgoing() == (
                if e == XmodemError::Protocol {
                    old(self).inner.outgoing().push(CAN)
                } else {
                    old(self).inner.outgoing()
                }),
            },
    {
        let read = self.read_byte()?;
        if read == byte {
            Ok(read)
        } else {
            self.write_byte(CAN);
            Err(XmodemError::Protocol)
        }
    }

    /// Writes the wire image of packet `self.packet` carrying `buf`.
    fn write_frame(&mut self, buf: &[u8])
        ensures
            final(self).packet == old(self).packet,
            final(self).started == old(self).started,
            final(self).inner.incoming() == old(self).inner.incoming(),
            final(self).inner.outgoing() == old(self).inner.outgoing() + frame(
                old(self).packet,
                buf@,
            ),
    {
        let n = self.packet;
        let sum = checksum(buf);
        self.write_byte(SOH);
        self.write_byte(n);
        self.write_byte(complement(n));
        let ghost head = self.inner.outgoing();
        let mut i: usize = 0;
        while i < buf.len()
            invariant
                i <= buf@.len(),
                self.packet == n,
                self.started == old(self).started,
                self.inner.incoming() == old(self).inner.incoming(),
                head == old(self).inner.outgoing() + seq![SOH, n, complement_of(n)],
                self.inner.outgoing() == head + buf@.subrange(0, i as int),
            decreases buf@.len() - i,
        {
            self.write_byte(buf[i]);
            assert(buf@.subrange(0, i as int + 1) == buf@.subrange(0, i as int).push(buf@[i as int]));
            i = i + 1;
        }
        self.write_byte(sum);
        assert(buf@.subrange(0, buf@.len() as int) == buf@);
        assert(self.inner.outgoing() =~= old(self).inner.outgoing() + frame(n, buf@));
    }

    /// Sends (uploads) one packet. An empty `buf` ends the transfer with the
    /// EOT exchange; otherwise `buf` must hold exactly one packet's payload,
    /// which is sent with up to ten attempts. The first call waits for the
    /// receiver's handshake NAK.
    pub fn write_packet(&mut self, buf: &[u8]) -> (r: Result<usize, XmodemError>)
        ensures
            ({
                let x = send_packet(
                    old(self).packet_number(),
                    old(self).is_started(),
                    buf@,
                    old(self).channel().incoming(),
                );
                &&& agrees(r, x.result)
                &&& final(self).channel().incoming() == old(self).channel().incoming().skip(
                    x.used as int,
                )
                &&& final(self).channel().outgoing() == old(self).channel().outgoing() + x.sent
                &&& final(self).is_started() == send_started(
                    old(self).is_started(),
                    buf@,
                    old(self).channel().incoming(),
                )
                &&& final(self).packet_number() == if r == Ok::<usize, XmodemError>(128) {
                    next_number(old(self).packet_number())
                } else {
                    old(self).packet_number()
                }
            }),
    {
        let ghost inp0 = self.inner.incoming();
        let ghost out0 = self.inner.outgoing();
        if buf.len() != 0 && buf.len() != PACKET_LEN {
            assert(self.inner.incoming() =~= inp0.skip(0));
            assert(self.inner.outgoing() =~= out0 + Seq::<u8>::empty());
            return Err(XmodemError::BadLength);
        }
        if !self.started {
            let h = self.expect_byte(NAK);
            if h.is_err() {
                assert(self.inner.outgoing() =~= out0 + Seq::<u8>::empty());
                return Err(h.unwrap_err());
            }
            self.started = true;
        }
        let ghost skipped: nat = if old(self).started { 0 } else { 1 };
        let ghost inp1 = self.inner.incoming();
        let ghost out1 = self.inner.outgoing();
        assert(inp1 == inp0.skip(skipped as int));
        assert(skipped <= inp0.len());
        assert(out1 == out0);
        assert(send_packet(self.packet, old(self).started, buf@, inp0) == after(
            skipped,
            Seq::empty(),
            send_body(self.packet, buf@, inp1),
        )) by {
            if old(self).started {
                assert(inp0.skip(0) =~= inp0);
                assert(Seq::<u8>::empty() + send_body(self.packet, buf@, inp1).sent
                    =~= send_body(self.packet, buf@, inp1).sent);
            } else {
                assert(inp0.drop_first() =~= inp0.skip(1));
            }
        }
        if buf.len() == 0 {
            self.write_byte(EOT);
            let a = self.expect_byte(NAK);
            if a.is_err() {
                assert(self.inner.incoming() =~= inp0.skip((skipped + one_if_any(inp1)) as int));
                assert(self.inner.outgoing() =~= out0 + (Seq::<u8>::empty() + seq![EOT]));
                return Err(a.unwrap_err());
            }
            self.write_byte(EOT);
            let b = self.expect_byte(ACK);
            if b.is_err() {
                assert(inp1.drop_first() =~= inp1.skip(1));
                assert(self.inner.incoming() =~= inp0.skip(
                    (skipped + 1 + one_if_any(inp1.drop_first())) as int,
                ));
                assert(self.inner.outgoing() =~= out0 + (Seq::<u8>::empty() + seq![EOT, EOT]));
                return Err(b.unwrap_err());
            }
            assert(inp1.drop_first() =~= inp1.skip(1));
            assert(self.inner.incoming() =~= inp0.skip((skipped + 2) as int));
            assert(self.inner.outgoing() =~= out0 + (Seq::<u8>::empty() + seq![EOT, EOT]));
            return Ok(0);
        }
        let n = self.packet;
        let ghost mut used: nat = 0;
        let ghost mut sent: Seq<u8> = Seq::empty();
        let mut attempt: usize = 0;
        assert(inp1.skip(0) =~= inp1);
        assert(out1 + Seq::<u8>::empty() =~= out1);
        assert(send_attempts(n, buf@, inp1, 10) =~= after(0, Seq::empty(), send_attempts(n, buf@, inp1, 10)));
        loop
            invariant
                attempt < 10,
                buf@.len() == 128,
                self.packet == n,
                self.started,
                used <= inp1.len(),
                skipped <= inp0.len(),
                inp1 == inp0.skip(skipped as int),
                out1 == out0,
                inp0 == old(self).inner.incoming(),
                out0 == old(self).inner.outgoing(),
                old(self).packet == n,
                send_started(old(self).started, buf@, inp0),
                send_packet(n, old(self).started, buf@, inp0) == after(
                    skipped,
                    Seq::empty(),
                    send_attempts(n, buf@, inp1, 10),
                ),
                self.inner.incoming() == inp1.skip(used as int),
                self.inner.outgoing() == out1 + sent,
                send_attempts(n, buf@, inp1, 10) == after(
                    used,
                    sent,
                    send_attempts(n, buf@, self.inner.incoming(), (10 - attempt) as nat),
                ),
            decreases 10 - attempt,
        {
            let ghost cur = self.inner.incoming();
            self.write_frame(buf);
            let reply = self.read_byte();
            let ghost x = send_attempts(n, buf@, cur, (10 - attempt) as nat);
            let ghost f = frame(n, buf@);
            match reply {
                Ok(b) => {
                    if b == ACK {
                        self.packet = n.wrapping_add(1);
                        assert(self.packet == next_number(n));
                        proof {
                            assert(cur.drop_first() =~= cur.skip(1));
                            lemma_skip_skip(inp1, used as int, 1);
                            lemma_skip_skip(inp0, skipped as int, (used + 1) as int);
                            lemma_after_after(skipped, Seq::empty(), used, sent, x);
                            assert(send_packet(n, old(self).started, buf@, inp0) == after(skipped + used, Seq::empty() + sent, x));
                            assert(x.used == 1);
                        }
                        assert(self.inner.outgoing() =~= out0 + ((Seq::<u8>::empty() + sent) + f));
                        return Ok(128);
                    } else if b == NAK {
                        proof {
                            if attempt + 1 < 10 {
                                assert(cur.drop_first() =~= inp1.skip((used + 1) as int));
                                lemma_after_after(used, sent, 1, f, send_attempts(n, buf@, cur.drop_first(), (10 - attempt - 1) as nat));
                            }
                            assert(cur.drop_first() =~= cur.skip(1));
                            lemma_skip_skip(inp1, used as int, 1);
                            used = used + 1;
                            sent = sent + f;
                            assert(self.inner.incoming() =~= inp1.skip(used as int));
                        }
                        if attempt + 1 == 10 {
                            proof { lemma_skip_skip(inp0, skipped as int, used as int); }
                            assert(self.inner.outgoing() =~= out0 + (Seq::<u8>::empty() + sent));
                            return Err(XmodemError::RetriesExhausted);
                        }
                        attempt = attempt + 1;
                    } else {
                        proof {
                            assert(cur.drop_first() =~= cur.skip(1));
                            lemma_skip_skip(inp1, used as int, 1);
                            lemma_skip_skip(inp0, skipped as int, (used + 1) as int);
                            lemma_after_after(skipped, Seq::empty(), used, sent, x);
                            assert(send_packet(n, old(self).started, buf@, inp0) == after(skipped + used, Seq::empty() + sent, x));
                            assert(x.used == 1);
                        }
                        assert(self.inner.outgoing() =~= out0 + ((Seq::<u8>::empty() + sent) + f));
                        return Err(XmodemError::Protocol);
                    }
                },
                Err(e) => {
                    assert(x.result == Err::<int, XmodemError>(e));
                    proof {
                        if cur.len() > 0 {
                            assert(cur.drop_first() =~= cur.skip(1));
                        }
                        assert(cur.skip(0) =~= cur);
                        lemma_skip_skip(inp1, used as int, one_if_any(cur) as int);
                        lemma_skip_skip(inp0, skipped as int, (used + one_if_any(cur)) as int);
                        lemma_after_after(skipped, Seq::empty(), used, sent, x);
                    }
                    assert(self.inner.outgoing() =~= out0 + ((Seq::<u8>::empty() + sent) + f));
                    return Err(e);
                },
            }
        }
    }

    /// Reads (downloads) one packet into the first 128 bytes of `buf`.
    /// Returns 128 for a packet, 0 once the sender has ended the transfer.
    /// The first call sends the handshake NAK. A packet whose checksum does
    /// not match is refused with NAK and read again.
    pub fn read_packet(&mut self, buf: &mut Vec<u8>) -> (r: Result<usize, XmodemError>)
        ensures
            final(buf)@.len() == old(buf)@.len(),
            old(buf)@.len() < 128 ==> r == Err::<usize, XmodemError>(XmodemError::BadLength)
                && *final(self) == *old(self),
            old(buf)@.len() >= 128 ==> ({
                let x = receive_packet(
                    old(self).packet_number(),
                    old(self).is_started(),
                    old(self).channel().incoming(),
                );
                &&& agrees(r, x.result)
                &&& final(self).channel().incoming() == old(self).channel().incoming().skip(
                    x.used as int,
                )
                &&& final(self).channel().outgoing() == old(self).channel().outgoing() + x.sent
                &&& final(self).is_started()
                &&& final(self).packet_number() == if r == Ok::<usize, XmodemError>(128) {
                    next_number(old(self).packet_number())
                } else {
                    old(self).packet_number()
                }
                &&& r == Ok::<usize, XmodemError>(128) ==> final(buf)@.subrange(0, 128) == x.data
            }),
    {
        if buf.len() < PACKET_LEN {
            return Err(XmodemError::BadLength);
        }
        let ghost inp0 = self.inner.incoming();
        let ghost out0 = self.inner.outgoing();
        let ghost pre = greeting(self.started);
        if !self.started {
            self.write_byte(NAK);
            self.started = true;
        }
        let n = self.packet;
        let ghost out1 = self.inner.outgoing();
        let ghost mut used: nat = 0;
        let ghost mut sent: Seq<u8> = Seq::empty();
        proof {
            assert(out1 == out0 + pre);
            assert(inp0.skip(0) =~= inp0);
            assert(receive_packet(n, old(self).started, inp0) == after(0, pre, receive_attempts(n, inp0))) by {
                assert(Seq::<u8>::empty() + receive_attempts(n, inp0).sent =~= receive_attempts(n, inp0).sent);
            }
            assert(Seq::<u8>::empty() + receive_attempts(n, inp0).sent =~= receive_attempts(n, inp0).sent);
            assert(out1 + Seq::<u8>::empty() =~= out1);
        }
        loop
            invariant
                buf@.len() == old(buf)@.len(),
                buf@.len() >= 128,
                self.packet == n,
                self.started,
                old(self).packet == n,
                inp0 == old(self).inner.incoming(),
                out0 == old(self).inner.outgoing(),
                out1 == out0 + pre,
                receive_packet(n, old(self).started, inp0) == after(0, pre, receive_attempts(n, inp0)),
                used <= inp0.len(),
                self.inner.incoming() == inp0.skip(used as int),
                self.inner.outgoing() == out1 + sent,
                receive_attempts(n, inp0) == after(used, sent, receive_attempts(n, self.inner.incoming())),
            decreases self.inner.incoming().len(),
        {
            let ghost cur = self.inner.incoming();
            let ghost y = receive_attempts(n, cur);
            proof {
                lemma_after_after(0, pre, used, sent, y);
            }
            let first = self.read_byte();
            let first = match first {
                Ok(b) => b,
                Err(e) => {
                    proof {
                        if cur.len() > 0 {
                            assert(cur.drop_first() =~= cur.skip(1));
                        }
                        assert(cur.skip(0) =~= cur);
                        lemma_skip_skip(inp0, used as int, y.used as int);
                        assert(self.inner.outgoing() =~= out0 + ((pre + sent) + y.sent));
                    }
                    return Err(e);
                },
            };
            if first == EOT {
                self.write_byte(NAK);
                let second = self.expect_byte(EOT);
                proof {
                    assert(cur.drop_first() =~= cur.skip(1));
                    lemma_skip3(inp0, used as int, 1, one_if_any(cur.drop_first()) as int);
                }
                if second.is_err() {
                    assert(self.inner.outgoing() =~= out0 + ((pre + sent) + y.sent));
                    return Err(second.unwrap_err());
                }
                self.write_byte(ACK);
                assert(self.inner.outgoing() =~= out0 + ((pre + sent) + y.sent));
                return Ok(0);
            }
            if first != SOH {
                proof {
                    assert(cur.drop_first() =~= cur.skip(1));
                    lemma_skip_skip(inp0, used as int, 1);
                    assert(self.inner.outgoing() =~= out0 + ((pre + sent) + y.sent));
                }
                return Err(XmodemError::Protocol);
            }
            let ghost out_h = self.inner.outgoing();
            let seq_byte = self.expect_byte_or_cancel(n);
            proof {
                assert(cur.drop_first() =~= cur.skip(1));
                assert(cur.drop_first().skip(one_if_any(cur.drop_first()) as int) =~= cur.skip((1 + one_if_any(cur.drop_first())) as int));
                lemma_skip_skip(inp0, used as int, (1 + one_if_any(cur.drop_first())) as int);
            }
            if seq_byte.is_err() {
                assert(self.inner.outgoing() =~= out0 + ((pre + sent) + y.sent));
                return Err(seq_byte.unwrap_err());
            }
            let comp = self.expect_byte_or_cancel(complement(n));
            proof {
                assert(cur.skip(2) =~= cur.skip(1).drop_first());
                assert(cur.skip(2).skip(one_if_any(cur.skip(2)) as int) =~= cur.skip((2 + one_if_any(cur.skip(2))) as int));
                lemma_skip_skip(inp0, used as int, (2 + one_if_any(cur.skip(2))) as int);
            }
            if comp.is_err() {
                assert(self.inner.outgoing() =~= out0 + ((pre + sent) + y.sent));
                return Err(comp.unwrap_err());
            }
            let mut acc: u8 = 0;
            let mut i: usize = 0;
            while i < PACKET_LEN
                invariant
                    i <= 128,
                    cur.len() >= 3,
                    buf@.len() == old(buf)@.len(),
                    buf@.len() >= 128,
                    self.packet == n,
                    self.started,
                    self.inner.outgoing() == out1 + sent,
                    cur.len() >= 3 + i ==> self.inner.incoming() == cur.skip(3 + i)
                        && buf@.subrange(0, i as int) == cur.subrange(3, 3 + i),
                    cur.len() < 3 + i ==> self.inner.incoming().len() == 0,
                    acc as nat == byte_sum(buf@.subrange(0, i as int)) % 256,
                decreases 128 - i,
            {
                let ghost before = self.inner.incoming();
                let byte = match self.read_byte() {
                    Ok(b) => b,
                    Err(_) => CAN,
                };
                let ghost prev = buf@;
                buf.set(i, byte);
                proof {
                    assert(buf@.subrange(0, i as int) =~= prev.subrange(0, i as int));
                    let p = buf@.subrange(0, i as int + 1);
                    assert(p.last() == byte);
                    assert(p.drop_last() =~= buf@.subrange(0, i as int));
                    if cur.len() >= 3 + i + 1 {
                        assert(before[0] == cur[3 + i]);
                        assert(self.inner.incoming() =~= cur.skip(3 + i + 1));
                        assert(buf@.subrange(0, i as int + 1) =~= cur.subrange(3, 3 + i + 1));
                    }
                }
                acc = acc.wrapping_add(byte);
                i = i + 1;
            }
            let sum = acc % 255;
            let ghost mid = self.inner.incoming();
            let check = self.read_byte();
            proof {
                if cur.len() >= 132 {
                    assert(mid[0] == cur[131]);
                    assert(buf@.subrange(0, 128) == cur.subrange(3, 131));
                    assert(sum == checksum_of(cur.subrange(3, 131)));
                    lemma_skip_skip(inp0, used as int, 132);
                    assert(self.inner.incoming() =~= cur.skip(132));
                } else {
                    assert(self.inner.incoming() =~= cur.skip(cur.len() as int));
                    lemma_skip_skip(inp0, used as int, cur.len() as int);
                }
            }
            let check = match check {
                Ok(c) => c,
                Err(e) => {
                    assert(self.inner.outgoing() =~= out0 + ((pre + sent) + y.sent));
                    return Err(e);
                },
            };
            if check == sum {
                self.write_byte(ACK);
                self.packet = n.wrapping_add(1);
                assert(self.packet == next_number(n));
                assert(self.inner.outgoing() =~= out0 + ((pre + sent) + y.sent));
                return Ok(128);
            }
            self.write_byte(NAK);
            proof {
                let rest = cur.subrange(132, cur.len() as int);
                assert(rest =~= cur.skip(132));
                lemma_after_after(used, sent, 132, seq![NAK], receive_attempts(n, rest));
                used = used + 132;
                sent = sent + seq![NAK];
                assert(self.inner.outgoing() =~= out1 + sent);
            }
        }
    }

    /// Transmits `data` over `to`: packets of 128 bytes, the last one padded
    /// with zeros, then the end of transmission. Returns the number of source
    /// bytes sent, padding excluded, and the channel.
    pub fn transmit(data: &[u8], to: T) -> (r: (Result<usize, XmodemError>, T))
        ensures
            ({
                let x = transmit_run(1, false, data@, to.incoming());
                &&& agrees(r.0, x.result)
                &&& r.1.incoming() == to.incoming().skip(x.used as int)
                &&& r.1.outgoing() == to.outgoing() + x.sent
            }),
            r.0 is Ok ==> r.0 == Ok::<usize, XmodemError>(data@.len() as usize),
    {
        let ghost inp0 = to.incoming();
        let ghost out0 = to.outgoing();
        let mut tx = Xmodem::new(to);
        let mut packet: Vec<u8> = Vec::new();
        let mut j: usize = 0;
        while j < PACKET_LEN
            invariant
                j <= 128,
                packet@.len() == j,
            decreases 128 - j,
        {
            packet.push(0);
            j = j + 1;
        }
        let mut pos: usize = 0;
        let ghost mut used: nat = 0;
        let ghost mut sent: Seq<u8> = Seq::empty();
        proof {
            lemma_transmit_count(1, false, data@, inp0);
            assert(data@.skip(0) =~= data@);
            assert(inp0.skip(0) =~= inp0);
            assert(out0 + Seq::<u8>::empty() =~= out0);
            let x = transmit_run(1, false, data@, inp0);
            assert(Seq::<u8>::empty() + x.sent =~= x.sent);
            assert(Seq::<u8>::empty() + x.data =~= x.data);
        }
        loop
            invariant
                pos <= data@.len(),
                packet@.len() == 128,
                inp0 == to.incoming(),
                out0 == to.outgoing(),
                used <= inp0.len(),
                tx.inner.incoming() == inp0.skip(used as int),
                tx.inner.outgoing() == out0 + sent,
                pos > 0 ==> tx.started,
                pos == 0 ==> !tx.started && tx.packet == 1 && used == 0,
                transmit_run(1, false, data@, inp0) == follow(
                    pos as int,
                    Exchange { result: Ok(0), data: Seq::empty(), used, sent },
                    transmit_run(tx.packet, tx.started, data@.skip(pos as int), tx.inner.incoming()),
                ),
            decreases data@.len() - pos,
        {
            let ghost cur = tx.inner.incoming();
            let ghost rest = data@.skip(pos as int);
            let ghost y = transmit_run(tx.packet, tx.started, rest, cur);
            if pos == data.len() {
                let empty: Vec<u8> = Vec::new();
                let r = tx.write_packet(empty.as_slice());
                proof {
                    assert(rest.len() == 0);
                    lemma_skip_skip(inp0, used as int, y.used as int);
                    assert(tx.inner.outgoing() =~= out0 + (sent + y.sent));
                }
                let chan = tx.into_inner();
                match r {
                    Ok(_) => {
                        return (Ok(pos), chan);
                    },
                    Err(e) => {
                        return (Err(e), chan);
                    },
                }
            }
            let remaining = data.len() - pos;
            let k: usize = if remaining < PACKET_LEN {
                remaining
            } else {
                PACKET_LEN
            };
            fill_packet(&mut packet, data, pos, k);
            let ghost n = tx.packet;
            let ghost st = tx.started;
            let r = tx.write_packet(packet.as_slice());
            let ghost x = send_packet(n, st, packet@, cur);
            proof {
                lemma_send_used(n, st, packet@, cur);
            }
            match r {
                Err(e) => {
                    proof {
                        lemma_skip_skip(inp0, used as int, x.used as int);
                        assert(tx.inner.outgoing() =~= out0 + (sent + x.sent));
                    }
                    return (Err(e), tx.into_inner());
                },
                Ok(_) => {},
            }
            proof {
                assert(x.result == Ok::<int, XmodemError>(128));
                lemma_skip_skip(inp0, used as int, x.used as int);
                assert(data@.skip(pos as int).skip(k as int) =~= data@.skip(pos + k));
                let z = transmit_run(next_number(n), true, rest.skip(k as int), cur.skip(x.used as int));
                lemma_follow_follow(pos as int, k as int, Seq::empty(), used, sent, x, z);
                assert(Seq::<u8>::empty() + x.data =~= Seq::<u8>::empty());
                used = used + x.used;
                sent = sent + x.sent;
            }
            pos = pos + k;
        }
    }

    /// Receives a transfer from `from`, appending each accepted packet's 128
    /// bytes to `into`. Returns the number of bytes received, a multiple of
    /// 128, and the channel.
    pub fn receive(from: T, into: &mut Vec<u8>) -> (r: (Result<usize, XmodemError>, T))
        ensures
            ({
                let x = receive_run(1, false, from.incoming());
                &&& agrees(r.0, x.result)
                &&& r.1.incoming() == from.incoming().skip(x.used as int)
                &&& r.1.outgoing() == from.outgoing() + x.sent
                &&& final(into)@ == old(into)@ + x.data
            }),
    {
        let ghost inp0 = from.incoming();
        let ghost out0 = from.outgoing();
        let start = into.len();
        let mut rx = Xmodem::new(from);
        let mut packet: Vec<u8> = Vec::new();
        let mut j: usize = 0;
        while j < PACKET_LEN
            invariant
                j <= 128,
                packet@.len() == j,
            decreases 128 - j,
        {
            packet.push(0);
            j = j + 1;
        }
        let ghost mut used: nat = 0;
        let ghost mut sent: Seq<u8> = Seq::empty();
        let ghost mut got: Seq<u8> = Seq::empty();
        proof {
            assert(inp0.skip(0) =~= inp0);
            assert(out0 + Seq::<u8>::empty() =~= out0);
            assert(old(into)@ + Seq::<u8>::empty() =~= old(into)@);
            let x = receive_run(1, false, inp0);
            assert(Seq::<u8>::empty() + x.sent =~= x.sent);
            assert(Seq::<u8>::empty() + x.data =~= x.data);
        }
        loop
            invariant
                packet@.len() == 128,
                inp0 == from.incoming(),
                out0 == from.outgoing(),
                used <= inp0.len(),
                start == old(into)@.len(),
                rx.inner.incoming() == inp0.skip(used as int),
                rx.inner.outgoing() == out0 + sent,
                into@ == old(into)@ + got,
                got.len() % 128 == 0,
                used == 0 ==> !rx.started && rx.packet == 1,
                used > 0 ==> rx.started,
                receive_run(1, false, inp0) == follow(
                    got.len() as int,
                    Exchange { result: Ok(0), data: got, used, sent },
                    receive_run(rx.packet, rx.started, rx.inner.incoming()),
                ),
            decreases rx.inner.incoming().len(),
        {
            let ghost cur = rx.inner.incoming();
            let ghost n = rx.packet;
            let ghost st = rx.started;
            let ghost x = receive_packet(n, st, cur);
            proof {
                lemma_receive_attempts_used(n, cur);
            }
            let r = rx.read_packet(&mut packet);
            proof {
                lemma_skip_skip(inp0, used as int, x.used as int);
            }
            match r {
                Err(e) => {
                    proof {
                        assert(rx.inner.outgoing() =~= out0 + (sent + x.sent));
                        assert(got + x.data =~= got);
                    }
                    return (Err(e), rx.into_inner());
                },
                Ok(0) => {
                    proof {
                        assert(rx.inner.outgoing() =~= out0 + (sent + x.sent));
                        assert(got + x.data =~= got);
                    }
                    let len = into.len();
                    return (Ok(len - start), rx.into_inner());
                },
                Ok(_) => {},
            }
            let mut j: usize = 0;
            let ghost base = into@;
            while j < PACKET_LEN
                invariant
                    j <= 128,
                    packet@.len() == 128,
                    into@ == base + packet@.take(j as int),
                decreases 128 - j,
            {
                into.push(packet[j]);
                assert(packet@.take(j as int + 1) =~= packet@.take(j as int).push(packet@[j as int]));
                j = j + 1;
            }
            proof {
                assert(packet@.take(128) =~= packet@);
                assert(packet@ =~= x.data);
                let z = receive_run(next_number(n), true, cur.skip(x.used as int));
                lemma_follow_follow(got.len() as int, 128, got, used, sent, x, z);
                used = used + x.used;
                sent = sent + x.sent;
                got = got + x.data;
                assert(into@ =~= old(into)@ + got);
            }
        }
    }

    /// Pushes out whatever the channel buffers.
    pub fn flush(&mut self)
        ensures
            final(self).packet_number() == old(self).packet_number(),
            final(self).is_started() == old(self).is_started(),
            final(self).channel().incoming() == old(self).channel().incoming(),
            final(self).channel().outgoing() == old(self).channel().outgoing(),
    {
        self.inner.flush()
    }
}

} // verus!
