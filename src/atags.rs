use vstd::prelude::*;

pub mod raw;

use raw::{AtagCmd, AtagCore, AtagMem, ATAG_CMD, ATAG_CORE, ATAG_MEM, ATAG_NONE, header_ok};

verus! {

/// A boot-parameter record, decoded.
#[derive(Debug, Clone, PartialEq, Eq)]
pub enum Atag {
    Core(AtagCore),
    Mem(AtagMem),
    /// The command line, up to its first NUL byte.
    Cmd(Vec<u8>),
    /// A record of a kind this parser does not decode, or too short for its kind.
    Other,
}

/// The bytes of `ws`, each word least significant byte first.
pub open spec fn le_bytes(ws: Seq<u32>) -> Seq<u8>
    decreases ws.len(),
{
    if ws.len() == 0 {
        Seq::empty()
    } else {
        let w = ws.last();
        le_bytes(ws.drop_last()) + seq![
            (w & 0xff) as u8,
            ((w >> 8) & 0xff) as u8,
            ((w >> 16) & 0xff) as u8,
            ((w >> 24) & 0xff) as u8,
        ]
    }
}

/// The index of the first NUL byte in `b`, or its length if there is none.
pub open spec fn nul_index(b: Seq<u8>) -> nat
    decreases b.len(),
{
    if b.len() == 0 {
        0
    } else if b[0] == 0 {
        0
    } else {
        1 + nul_index(b.drop_first())
    }
}

/// The command-line text held by the payload words `ws`.
pub open spec fn cmd_text(ws: Seq<u32>) -> Seq<u8> {
    le_bytes(ws).take(nul_index(le_bytes(ws)) as int)
}

/// Whether `a` is the decoding of a record with tag `tag` and payload `p`.
pub open spec fn decodes_to(a: Atag, tag: u32, p: Seq<u32>) -> bool {
    if tag == ATAG_CORE && p.len() >= 3 {
        a == Atag::Core(AtagCore { flags: p[0], page_size: p[1], root_dev: p[2] })
    } else if tag == ATAG_MEM && p.len() >= 2 {
        a == Atag::Mem(AtagMem { size: p[0], start: p[1] })
    } else if tag == ATAG_CMD {
        a matches Atag::Cmd(v) && v@ == cmd_text(p)
    } else {
        a == Atag::Other
    }
}

proof fn lemma_nul_index_bound(b: Seq<u8>)
    ensures
        nul_index(b) <= b.len(),
        nul_index(b) < b.len() ==> b[nul_index(b) as int] == 0,
        forall|j: int| 0 <= j < nul_index(b) ==> b[j] != 0,
    decreases b.len(),
{
    if b.len() > 0 && b[0] != 0 {
        lemma_nul_index_bound(b.drop_first());
        assert forall|j: int| 0 <= j < nul_index(b) implies b[j] != 0 by {
            if j > 0 {
                assert(b[j] == b.drop_first()[j - 1]);
            }
        }
    }
}

proof fn lemma_nul_index_unique(b: Seq<u8>, k: int)
    requires
        0 <= k <= b.len(),
        k < b.len() ==> b[k] == 0,
        forall|j: int| 0 <= j < k ==> b[j] != 0,
    ensures
        nul_index(b) == k,
    decreases b.len(),
{
    if b.len() > 0 && k > 0 {
        assert forall|j: int| 0 <= j < k - 1 implies b.drop_first()[j] != 0 by {
            assert(b.drop_first()[j] == b[j + 1]);
        }
        lemma_nul_index_unique(b.drop_first(), k - 1);
    }
}

/// The bytes of the payload words, least significant byte first.
fn words_to_bytes(ws: &Vec<u32>) -> (r: Vec<u8>)
    ensures
        r@ == le_bytes(ws@),
{
    let mut out: Vec<u8> = Vec::new();
    let mut i: usize = 0;
    while i < ws.len()
        invariant
            i <= ws@.len(),
            out@ == le_bytes(ws@.subrange(0, i as int)),
        decreases ws@.len() - i,
    {
        let w = ws[i];
        out.push((w & 0xff) as u8);
        out.push(((w >> 8) & 0xff) as u8);
        out.push(((w >> 16) & 0xff) as u8);
        out.push(((w >> 24) & 0xff) as u8);
        proof {
            let s = ws@.subrange(0, i as int + 1);
            assert(s.drop_last() =~= ws@.subrange(0, i as int));
            assert(s.last() == w);
            assert(out@ =~= le_bytes(s));
        }
        i = i + 1;
    }
    assert(ws@.subrange(0, ws@.len() as int) =~= ws@);
    out
}

/// The command-line text of the payload words: their bytes up to the first NUL.
fn command_line(ws: &Vec<u32>) -> (r: Vec<u8>)
    ensures
        r@ == cmd_text(ws@),
{
    let bytes = words_to_bytes(ws);
    let mut text: Vec<u8> = Vec::new();
    let mut i: usize = 0;
    while i < bytes.len() && bytes[i] != 0
        invariant
            i <= bytes@.len(),
            text@ == bytes@.take(i as int),
            forall|j: int| 0 <= j < i ==> bytes@[j] != 0,
        decreases bytes@.len() - i,
    {
        text.push(bytes[i]);
        assert(bytes@.take(i as int + 1) =~= bytes@.take(i as int).push(bytes@[i as int]));
        i = i + 1;
    }
    proof {
        lemma_nul_index_unique(bytes@, i as int);
    }
    text
}

impl Atag {
    /// Decodes a raw record by its tag; each field is read at its fixed
    /// offset in the payload, and a payload too short for its kind decodes
    /// to `Other`.
    pub fn from_raw(atag: &raw::Atag) -> (r: Atag)
        ensures
            decodes_to(r, atag.tag, atag.kind@),
    {
        let p = &atag.kind;
        if atag.tag == ATAG_CORE && p.len() >= 3 {
            Atag::Core(AtagCore { flags: p[0], page_size: p[1], root_dev: p[2] })
        } else if atag.tag == ATAG_MEM && p.len() >= 2 {
            Atag::Mem(AtagMem { size: p[0], start: p[1] })
        } else if atag.tag == ATAG_CMD {
            Atag::Cmd(command_line(p))
        } else {
            Atag::Other
        }
    }
}

/// The records of a boot-parameter buffer, read one at a time from its start.
pub struct Atags {
    words: Vec<u32>,
    pos: usize,
    done: bool,
}

impl Atags {
    pub closed spec fn words(&self) -> Seq<u32> {
        self.words@
    }

    pub closed spec fn position(&self) -> usize {
        self.pos
    }

    pub closed spec fn finished(&self) -> bool {
        self.done
    }

    /// The records of `words`, starting at its first word.
    pub fn get(words: Vec<u32>) -> (r: Atags)
        ensures
            r.words() == words@,
            r.position() == 0,
            !r.finished(),
    {
        Atags { words, pos: 0, done: false }
    }

    /// The next record before the terminating one. Reading stops for good at
    /// the terminating record or at a malformed header.
    pub fn next(&mut self) -> (r: Option<Atag>)
        ensures
            final(self).words() == old(self).words(),
            ({
                let w = old(self).words();
                let pos = old(self).position() as int;
                if old(self).finished() || !header_ok(w, pos) || w[pos + 1] == ATAG_NONE {
                    r is None && final(self).finished()
                } else {
                    &&& r matches Some(a) && decodes_to(a, w[pos + 1], w.subrange(pos + 2, pos + w[pos]))
                    &&& !final(self).finished() ==> final(self).position() == pos + w[pos]
                }
            }),
    {
        if self.done {
            return None;
        }
        match raw::Atag::parse(self.words.as_slice(), self.pos) {
            None => {
                self.done = true;
                None
            },
            Some(atag) => {
                if atag.tag == ATAG_NONE {
                    self.done = true;
                    return None;
                }
                let res = Atag::from_raw(&atag);
                match atag.next(self.pos) {
                    Some(p) => {
                        self.pos = p;
                    },
                    None => {
                        self.done = true;
                    },
                }
                Some(res)
            },
        }
    }
}

} // verus!
