use vstd::prelude::*;

use crate::packet::{checksum_of, complement_of, frame, ACK, CAN, EOT, NAK, SOH};
use crate::xmodem::{
    failed, Exchange, receive_attempts, receive_run, send_attempts, send_end, send_packet, transmit_run,
    XmodemError,
};

verus! {

/// `k` copies of `f`, one after another.
pub open spec fn repeated(f: Seq<u8>, k: nat) -> Seq<u8>
    decreases k,
{
    if k == 0 {
        Seq::empty()
    } else {
        f + repeated(f, (k - 1) as nat)
    }
}

/// `k` negative acknowledgements.
pub open spec fn naks(k: nat) -> Seq<u8> {
    Seq::new(k, |i: int| NAK)
}

/// An empty transfer is one end-of-transmission exchange and no packet: the
/// sender writes nothing but at most two EOT bytes, and succeeds, with 0,
/// exactly when the receiver answers NAK, NAK, ACK; a receiver that reads
/// EOT, EOT delivers nothing, returns 0 and answers NAK, NAK, ACK.
pub proof fn lemma_empty_transfer(inp: Seq<u8>)
    ensures
        ({
            let t = transmit_run(1, false, Seq::empty(), inp);
            &&& t.sent.len() <= 2
            &&& forall|i: int| 0 <= i < t.sent.len() ==> t.sent[i] == EOT
            &&& (t.result is Ok <==> (inp.len() >= 3 && inp[0] == NAK && inp[1] == NAK && inp[2]
                == ACK))
            &&& t.result is Ok ==> t.result == Ok::<int, XmodemError>(0) && t.sent == seq![
                EOT,
                EOT,
            ]
        }),
        ({
            let r = receive_run(1, false, seq![EOT, EOT]);
            &&& r.result == Ok::<int, XmodemError>(0)
            &&& r.data.len() == 0
            &&& r.sent == seq![NAK, NAK, ACK]
        }),
{
    let t = transmit_run(1, false, Seq::empty(), inp);
    if inp.len() > 0 && inp[0] == NAK {
        assert(inp.drop_first().len() == inp.len() - 1);
        if inp.len() > 1 {
            assert(inp.drop_first()[0] == inp[1]);
        }
        if inp.len() > 2 {
            assert(inp.drop_first().drop_first()[0] == inp[2]);
        }
        assert(Seq::<u8>::empty() + seq![EOT] =~= seq![EOT]);
        assert(Seq::<u8>::empty() + seq![EOT, EOT] =~= seq![EOT, EOT]);
    }
    let e = seq![EOT, EOT];
    assert(e.drop_first() =~= seq![EOT]);
    assert(receive_attempts(1, e).sent =~= seq![NAK, ACK]);
    assert(seq![NAK] + seq![NAK, ACK] =~= seq![NAK, NAK, ACK]);
}

proof fn lemma_refusals(n: u8, data: Seq<u8>, rest: Seq<u8>, k: nat)
    requires
        k >= 1,
    ensures
        send_attempts(n, data, naks(k) + rest, k) == failed(
            XmodemError::RetriesExhausted,
            k,
            repeated(frame(n, data), k),
        ),
    decreases k,
{
    let inp = naks(k) + rest;
    assert(inp[0] == NAK);
    let f = frame(n, data);
    if k == 1 {
        assert(repeated(f, 0) == Seq::<u8>::empty());
        assert(repeated(f, 1) =~= f);
    } else {
        assert(inp.drop_first() =~= naks((k - 1) as nat) + rest);
        lemma_refusals(n, data, rest, (k - 1) as nat);
    }
}

/// Ten refusals in a row exhaust a packet: the sender fails with
/// `RetriesExhausted`, having written the packet exactly ten times and read
/// exactly the ten NAKs, and reports no bytes for it.
pub proof fn lemma_retry_exhaustion(n: u8, data: Seq<u8>, rest: Seq<u8>)
    requires
        data.len() == 128,
    ensures
        ({
            let x = send_packet(n, true, data, naks(10) + rest);
            &&& x.result == Err::<int, XmodemError>(XmodemError::RetriesExhausted)
            &&& x.used == 10
            &&& x.sent == repeated(frame(n, data), 10)
        }),
{
    lemma_refusals(n, data, rest, 10);
}

/// The cancellation byte, read where a reply is expected, fails the reading
/// side at once with `Aborted`, and it writes nothing after that read: a
/// sender waiting for the handshake, for a packet's reply or for either
/// end-of-transmission reply; a receiver waiting for a packet or for the
/// second EOT.
pub proof fn lemma_cancellation(n: u8, buf: Seq<u8>, rest: Seq<u8>, k: nat)
    requires
        k >= 1,
    ensures
        (buf.len() == 0 || buf.len() == 128) ==> send_packet(n, false, buf, seq![CAN] + rest)
            == failed(XmodemError::Aborted, 1, Seq::empty()),
        send_attempts(n, buf, seq![CAN] + rest, k) == failed(
            XmodemError::Aborted,
            1,
            frame(n, buf),
        ),
        send_end(seq![CAN] + rest) == failed(XmodemError::Aborted, 1, seq![EOT]),
        send_end(seq![NAK, CAN] + rest) == failed(XmodemError::Aborted, 2, seq![EOT, EOT]),
        receive_attempts(n, seq![CAN] + rest) == failed(XmodemError::Aborted, 1, Seq::empty()),
        receive_attempts(n, seq![EOT, CAN] + rest) == failed(XmodemError::Aborted, 2, seq![NAK]),
{
    assert((seq![CAN] + rest)[0] == CAN);
    assert((seq![NAK, CAN] + rest)[0] == NAK);
    assert((seq![NAK, CAN] + rest).drop_first()[0] == CAN);
    assert((seq![EOT, CAN] + rest)[0] == EOT);
    assert((seq![EOT, CAN] + rest).drop_first()[0] == CAN);
}

/// A refused packet is sent again unchanged and then accepted: when packet
/// `n` arrives with its payload damaged in transit to `bad` (its checksum byte
/// intact), the receiver answers NAK and takes the resent packet, delivering
/// the original payload; a sender answered NAK then ACK writes the identical
/// packet twice. The damage is seen whenever it changes the checksum.
pub proof fn lemma_checksum_retry(n: u8, data: Seq<u8>, bad: Seq<u8>, rest: Seq<u8>)
    requires
        data.len() == 128,
        bad.len() == 128,
        checksum_of(bad) != checksum_of(data),
        n != CAN,
        complement_of(n) != CAN,
        checksum_of(data) != CAN,
    ensures
        ({
            let damaged = seq![SOH, n, complement_of(n)] + bad + seq![checksum_of(data)];
            receive_attempts(n, damaged + frame(n, data) + rest) == (Exchange {
                result: Ok(128),
                data,
                used: 264,
                sent: seq![NAK, ACK],
            })
        }),
        send_attempts(n, data, seq![NAK, ACK] + rest, 10) == (Exchange {
            result: Ok(128),
            data: Seq::empty(),
            used: 2,
            sent: frame(n, data) + frame(n, data),
        }),
{
    let damaged = seq![SOH, n, complement_of(n)] + bad + seq![checksum_of(data)];
    let inp = damaged + frame(n, data) + rest;
    assert(inp[0] == SOH);
    assert(inp[1] == n);
    assert(inp[2] == complement_of(n));
    assert(inp.subrange(3, 131) =~= bad);
    assert(inp[131] == checksum_of(data));
    let second = inp.subrange(132, inp.len() as int);
    assert(second =~= frame(n, data) + rest);
    assert(second[0] == SOH);
    assert(second[1] == n);
    assert(second[2] == complement_of(n));
    assert(second.subrange(3, 131) =~= data);
    assert(second[131] == checksum_of(data));
    assert(seq![NAK] + seq![ACK] =~= seq![NAK, ACK]);
    assert(receive_attempts(n, second) == (Exchange {
        result: Ok(128),
        data,
        used: 132,
        sent: seq![ACK],
    }));
    let r = seq![NAK, ACK] + rest;
    assert(r[0] == NAK);
    assert(r.drop_first()[0] == ACK);
    assert(send_attempts(n, data, r.drop_first(), 9) == (Exchange {
        result: Ok(128),
        data: Seq::empty(),
        used: 1,
        sent: frame(n, data),
    }));
}

} // verus!
