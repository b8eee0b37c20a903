use vstd::prelude::*;

verus! {

/// A register word that is read.
pub trait Readable {
    /// The word the register holds.
    spec fn value(&self) -> u32;

    fn read(&self) -> (r: u32)
        ensures
            r == self.value(),
    ;

    /// Whether every bit of `mask` is set.
    fn has_mask(&self, mask: u32) -> (r: bool)
        ensures
            r == (self.value() & mask == mask),
    {
        (self.read() & mask) == mask
    }
}

/// A register word that is written.
pub trait Writeable {
    /// The word last written.
    spec fn stored(&self) -> u32;

    fn write(&mut self, val: u32)
        ensures
            final(self).stored() == val,
    ;
}

/// A register word that is both read and written.
pub trait ReadableWriteable: Readable + Writeable {
    /// Clears every bit that `mask` does not hold.
    fn and_mask(&mut self, mask: u32)
        ensures
            final(self).stored() == old(self).value() & mask,
    {
        let init_val = self.read();
        self.write(init_val & mask);
    }

    /// Sets every bit that `mask` holds.
    fn or_mask(&mut self, mask: u32)
        ensures
            final(self).stored() == old(self).value() | mask,
    {
        let init_val = self.read();
        self.write(init_val | mask);
    }
}

/// A reserved register word: neither read nor written.
pub struct Reserved<T>(T);

/// A read-only register word.
pub struct ReadVolatile<T>(T);

/// A write-only register word.
pub struct WriteVolatile<T>(T);

/// A read-write register word.
pub struct Volatile<T>(T);

impl<T> Reserved<T> {
    /// Holds `value`, which nothing reads again.
    pub fn new(value: T) -> Self {
        Reserved(value)
    }
}

impl ReadVolatile<u32> {
    pub fn new(value: u32) -> (r: Self)
        ensures
            r.value() == value,
    {
        ReadVolatile(value)
    }
}

impl WriteVolatile<u32> {
    pub fn new(value: u32) -> (r: Self)
        ensures
            r.stored() == value,
    {
        WriteVolatile(value)
    }
}

impl Volatile<u32> {
    pub fn new(value: u32) -> (r: Self)
        ensures
            r.value() == value,
            r.stored() == value,
    {
        Volatile(value)
    }
}

impl Readable for ReadVolatile<u32> {
    closed spec fn value(&self) -> u32 {
        self.0
    }

    fn read(&self) -> (r: u32) {
        self.0
    }
}

impl Writeable for WriteVolatile<u32> {
    closed spec fn stored(&self) -> u32 {
        self.0
    }

    fn write(&mut self, val: u32) {
        self.0 = val;
    }
}

impl Readable for Volatile<u32> {
    closed spec fn value(&self) -> u32 {
        self.0
    }

    fn read(&self) -> (r: u32) {
        self.0
    }
}

impl Writeable for Volatile<u32> {
    closed spec fn stored(&self) -> u32 {
        self.0
    }

    fn write(&mut self, val: u32) {
        self.0 = val;
    }
}

impl ReadableWriteable for Volatile<u32> {

}

} // verus!
