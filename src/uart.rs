use vstd::prelude::*;

use vstd::string::StringSliceAdditionalSpecFns;

use crate::channel::Channel;

verus! {

/// Line feed.
pub const LF: u8 = 0x0A;
/// Carriage return.
pub const CR: u8 = 0x0D;

/// `b` with a carriage return put before every line feed.
pub open spec fn crlf(b: Seq<u8>) -> Seq<u8>
    decreases b.len(),
{
    if b.len() == 0 {
        Seq::empty()
    } else {
        crlf(b.drop_last()) + if b.last() == LF {
            seq![CR, LF]
        } else {
            seq![b.last()]
        }
    }
}

/// The mini UART seen through its two FIFOs: the bytes its receiver holds or
/// will be handed, and every byte it has transmitted, with an optional read
/// timeout in milliseconds.
pub struct UART {
    rx: Vec<u8>,
    rx_pos: usize,
    tx: Vec<u8>,
    timeout: Option<u64>,
}

impl UART {
    /// Bytes not yet read from the receive FIFO.
    pub closed spec fn pending(&self) -> Seq<u8> {
        if self.rx_pos <= self.rx@.len() {
            self.rx@.skip(self.rx_pos as int)
        } else {
            Seq::empty()
        }
    }

    /// Every byte transmitted so far.
    pub closed spec fn transmitted(&self) -> Seq<u8> {
        self.tx@
    }

    pub closed spec fn read_timeout(&self) -> Option<u64> {
        self.timeout
    }

    /// A UART whose receiver will hand out `incoming`, with nothing
    /// transmitted and no read timeout.
    pub fn new(incoming: Vec<u8>) -> (r: UART)
        ensures
            r.pending() == incoming@,
            r.transmitted() == Seq::<u8>::empty(),
            r.read_timeout() is None,
    {
        let r = UART { rx: incoming, rx_pos: 0, tx: Vec::new(), timeout: None };
        assert(r.rx@.skip(0) =~= r.rx@);
        r
    }

    /// Sets the read timeout.
    pub fn set_read_timeout(&mut self, milliseconds: u32)
        ensures
            final(self).read_timeout() == Some(milliseconds as u64),
            final(self).pending() == old(self).pending(),
            final(self).transmitted() == old(self).transmitted(),
    {
        self.timeout = Some(milliseconds as u64);
    }

    /// Transmits one byte.
    pub fn write_byte(&mut self, byte: u8)
        ensures
            final(self).transmitted() == old(self).transmitted().push(byte),
            final(self).pending() == old(self).pending(),
            final(self).read_timeout() == old(self).read_timeout(),
    {
        self.tx.push(byte);
    }

    /// Whether a byte is waiting in the receive FIFO.
    pub fn has_byte(&self) -> (r: bool)
        ensures
            r == (self.pending().len() > 0),
    {
        self.rx_pos < self.rx.len()
    }

    /// Waits for a byte to arrive; with a timeout set, fails once it expires
    /// with nothing received. Without a timeout it would wait forever on an
    /// empty FIFO, so a byte must then be on its way.
    pub fn wait_for_byte(&self) -> (r: Result<(), ()>)
        requires
            self.read_timeout() is Some || self.pending().len() > 0,
        ensures
            r is Ok <==> self.pending().len() > 0,
    {
        if self.has_byte() {
            Ok(())
        } else {
            Err(())
        }
    }

    /// Reads the next received byte.
    pub fn read_byte(&mut self) -> (r: u8)
        requires
            old(self).pending().len() > 0,
        ensures
            r == old(self).pending()[0],
            final(self).pending() == old(self).pending().drop_first(),
            final(self).transmitted() == old(self).transmitted(),
            final(self).read_timeout() == old(self).read_timeout(),
    {
        let len = self.rx.len();
        assert(self.rx_pos < len);
        let b = self.rx[self.rx_pos];
        proof {
            assert(self.rx@.skip(self.rx_pos as int).drop_first() =~= self.rx@.skip(
                self.rx_pos as int + 1,
            ));
        }
        self.rx_pos = self.rx_pos + 1;
        b
    }

    /// Transmits the text `s`, each line feed preceded by a carriage return.
    pub fn write_str(&mut self, s: &str)
        ensures
            final(self).transmitted() == old(self).transmitted() + crlf(s.spec_bytes()),
            final(self).pending() == old(self).pending(),
            final(self).read_timeout() == old(self).read_timeout(),
    {
        let bytes = s.as_bytes();
        let mut i: usize = 0;
        assert(old(self).transmitted() + crlf(bytes@.subrange(0, 0)) =~= old(self).transmitted());
        while i < bytes.len()
            invariant
                i <= bytes@.len(),
                bytes@ == s.spec_bytes(),
                self.transmitted() == old(self).transmitted() + crlf(bytes@.subrange(0, i as int)),
                self.pending() == old(self).pending(),
                self.read_timeout() == old(self).read_timeout(),
            decreases bytes@.len() - i,
        {
            let c = bytes[i];
            if c == LF {
                self.write_byte(CR);
            }
            self.write_byte(c);
            proof {
                let p = bytes@.subrange(0, i as int + 1);
                assert(p.drop_last() =~= bytes@.subrange(0, i as int));
                assert(p.last() == c);
                assert(self.transmitted() =~= old(self).transmitted() + crlf(p));
            }
            i = i + 1;
        }
        assert(bytes@.subrange(0, bytes@.len() as int) =~= bytes@);
    }

    /// Transmits every byte of `buf`; returns how many were written.
    pub fn write(&mut self, buf: &[u8]) -> (r: usize)
        ensures
            r == buf@.len(),
            final(self).transmitted() == old(self).transmitted() + buf@,
            final(self).pending() == old(self).pending(),
            final(self).read_timeout() == old(self).read_timeout(),
    {
        let mut i: usize = 0;
        while i < buf.len()
            invariant
                i <= buf@.len(),
                self.transmitted() == old(self).transmitted() + buf@.subrange(0, i as int),
                self.pending() == old(self).pending(),
                self.read_timeout() == old(self).read_timeout(),
            decreases buf@.len() - i,
        {
            self.write_byte(buf[i]);
            assert(buf@.subrange(0, i as int + 1) =~= buf@.subrange(0, i as int).push(buf@[i as int]));
            i = i + 1;
        }
        assert(buf@.subrange(0, buf@.len() as int) =~= buf@);
        buf.len()
    }

    /// Waits for input, then reads what has arrived into the front of `buf`,
    /// as much as fits; returns how many bytes were read.
    pub fn read(&mut self, buf: &mut Vec<u8>) -> (r: usize)
        requires
            old(self).read_timeout() is Some || old(self).pending().len() > 0,
        ensures
            r == if old(buf)@.len() < old(self).pending().len() {
                old(buf)@.len()
            } else {
                old(self).pending().len()
            },
            final(buf)@ == old(self).pending().take(r as int) + old(buf)@.skip(r as int),
            final(self).pending() == old(self).pending().skip(r as int),
            final(self).transmitted() == old(self).transmitted(),
            final(self).read_timeout() == old(self).read_timeout(),
    {
        let mut read: usize = 0;
        assert(old(self).pending().take(0) + old(buf)@.skip(0) =~= old(buf)@);
        assert(old(self).pending().skip(0) =~= old(self).pending());
        if self.wait_for_byte().is_ok() {
            while self.has_byte() && read < buf.len()
                invariant
                    read <= old(buf)@.len(),
                    read <= old(self).pending().len(),
                    buf@.len() == old(buf)@.len(),
                    buf@ == old(self).pending().take(read as int) + old(buf)@.skip(read as int),
                    self.pending() == old(self).pending().skip(read as int),
                    self.transmitted() == old(self).transmitted(),
                    self.read_timeout() == old(self).read_timeout(),
                decreases old(buf)@.len() - read,
            {
                let b = self.read_byte();
                buf.set(read, b);
                proof {
                    assert(old(self).pending().skip(read as int).drop_first() =~= old(
                        self,
                    ).pending().skip(read as int + 1));
                    assert(buf@ =~= old(self).pending().take(read as int + 1) + old(buf)@.skip(
                        read as int + 1,
                    ));
                }
                read = read + 1;
            }
        }
        read
    }

    /// A copy of every byte transmitted so far.
    pub fn sent(&self) -> (r: Vec<u8>)
        ensures
            r@ == self.transmitted(),
    {
        self.tx.clone()
    }
}

impl Channel for UART {
    open spec fn incoming(&self) -> Seq<u8> {
        self.pending()
    }

    open spec fn outgoing(&self) -> Seq<u8> {
        self.transmitted()
    }

    fn recv(&mut self) -> (r: Option<u8>) {
        if self.has_byte() {
            Some(self.read_byte())
        } else {
            None
        }
    }

    fn send(&mut self, byte: u8) {
        self.write_byte(byte);
    }

    fn flush(&mut self) {
    }
}

} // verus!
