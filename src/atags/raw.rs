use vstd::prelude::*;

verus! {

/// Tag word of the terminating record.
pub const ATAG_NONE: u32 = 0x0;
/// Tag word of the core record.
pub const ATAG_CORE: u32 = 0x54410001;
/// Tag word of the memory record.
pub const ATAG_MEM: u32 = 0x54410002;
/// Tag word of the command-line record.
pub const ATAG_CMD: u32 = 0x54410009;

/// The record kinds this parser knows.
#[derive(Debug, Clone, Copy, PartialEq, Eq, Structural)]
pub enum Values {
    NONE,
    CORE,
    MEM,
    CMD,
}

pub open spec fn value_of_tag(tag: u32) -> Option<Values> {
    if tag == ATAG_NONE {
        Some(Values::NONE)
    } else if tag == ATAG_CORE {
        Some(Values::CORE)
    } else if tag == ATAG_MEM {
        Some(Values::MEM)
    } else if tag == ATAG_CMD {
        Some(Values::CMD)
    } else {
        None
    }
}

impl Values {
    /// The kind a tag word names, if any.
    pub fn from_tag(tag: u32) -> (r: Option<Values>)
        ensures
            r == value_of_tag(tag),
    {
        if tag == ATAG_NONE {
            Some(Values::NONE)
        } else if tag == ATAG_CORE {
            Some(Values::CORE)
        } else if tag == ATAG_MEM {
            Some(Values::MEM)
        } else if tag == ATAG_CMD {
            Some(Values::CMD)
        } else {
            None
        }
    }
}

/// The payload of a core record.
#[derive(Debug, Clone, Copy, PartialEq, Eq, Structural)]
pub struct AtagCore {
    pub flags: u32,
    pub page_size: u32,
    pub root_dev: u32,
}

/// The payload of a memory record.
#[derive(Debug, Clone, Copy, PartialEq, Eq, Structural)]
pub struct AtagMem {
    pub size: u32,
    pub start: u32,
}

/// The first byte of a command-line record's text.
#[derive(Debug, Clone, Copy, PartialEq, Eq, Structural)]
pub struct AtagCmd {
    pub value: u8,
}

/// One record as laid out in the word buffer: its size in words (header
/// included), its tag word, and the payload words after the header.
pub struct Atag {
    pub size: u32,
    pub tag: u32,
    pub kind: Vec<u32>,
}

/// Whether a well-formed record header starts at word `pos`: two header
/// words, and a size that covers them and stays inside the buffer.
pub open spec fn header_ok(words: Seq<u32>, pos: int) -> bool {
    &&& 0 <= pos
    &&& pos + 2 <= words.len()
    &&& words[pos] >= 2
    &&& pos + words[pos] <= words.len()
}

impl Atag {
    /// Reads the record at word `pos`, or `None` if no well-formed header
    /// starts there.
    pub fn parse(words: &[u32], pos: usize) -> (r: Option<Atag>)
        ensures
            r is Some <==> header_ok(words@, pos as int),
            r matches Some(a) ==> a.size == words@[pos as int] && a.tag == words@[pos + 1]
                && a.kind@ == words@.subrange(pos + 2, pos + words@[pos as int]),
    {
        let len = words.len();
        if pos > len || len - pos < 2 {
            return None;
        }
        let size = words[pos];
        if size < 2 || (size as usize) > len - pos {
            return None;
        }
        let tag = words[pos + 1];
        let mut kind: Vec<u32> = Vec::new();
        let end = pos + size as usize;
        let mut i = pos + 2;
        while i < end
            invariant
                pos + 2 <= i <= end,
                end == pos + size,
                end <= words@.len(),
                kind@ == words@.subrange(pos + 2, i as int),
            decreases end - i,
        {
            kind.push(words[i]);
            assert(words@.subrange(pos + 2, i + 1) =~= words@.subrange(pos + 2, i as int).push(
                words@[i as int],
            ));
            i = i + 1;
        }
        Some(Atag { size, tag, kind })
    }

    /// The word offset of the record after this one at `pos`; `None` for the
    /// terminating record or past the end of the address space.
    pub fn next(&self, pos: usize) -> (r: Option<usize>)
        ensures
            self.tag == ATAG_NONE ==> r is None,
            self.tag != ATAG_NONE && pos + self.size <= usize::MAX ==> r == Some(
                (pos + self.size) as usize,
            ),
            self.tag != ATAG_NONE && pos + self.size > usize::MAX ==> r is None,
    {
        if self.tag == ATAG_NONE {
            None
        } else {
            pos.checked_add(self.size as usize)
        }
    }
}

} // verus!
