use vstd::prelude::*;

use core::marker::PhantomData;

verus! {

/// The function a pin is switched to.
#[derive(Debug, Clone, Copy, PartialEq, Eq, Structural)]
pub enum Function {
    Input,
    Output,
    Alt0,
    Alt1,
    Alt2,
    Alt3,
    Alt4,
    Alt5,
}

/// The three-bit code of a function in a function-select register.
pub open spec fn function_code(f: Function) -> u32 {
    match f {
        Function::Input => 0b000,
        Function::Output => 0b001,
        Function::Alt0 => 0b100,
        Function::Alt1 => 0b101,
        Function::Alt2 => 0b110,
        Function::Alt3 => 0b111,
        Function::Alt4 => 0b011,
        Function::Alt5 => 0b010,
    }
}

impl Function {
    pub fn code(&self) -> (r: u32)
        ensures
            r == function_code(*self),
    {
        match self {
            Function::Input => 0b000,
            Function::Output => 0b001,
            Function::Alt0 => 0b100,
            Function::Alt1 => 0b101,
            Function::Alt2 => 0b110,
            Function::Alt3 => 0b111,
            Function::Alt4 => 0b011,
            Function::Alt5 => 0b010,
        }
    }
}

/// A pin not yet given a function.
pub enum Uninitialized {
    Marker,
}

/// A pin driven as an output.
pub enum Output {
    Marker,
}

/// A pin read as an input.
pub enum Input {
    Marker,
}

/// A pin given one of the alternate functions.
pub enum Alternate {
    Marker,
}

/// The GPIO register block: six function-select words, two set words, two
/// clear words and two level words.
pub struct GpioRegisters {
    pub fsel: Vec<u32>,
    pub set: Vec<u32>,
    pub clr: Vec<u32>,
    pub lvl: Vec<u32>,
}

impl GpioRegisters {
    pub open spec fn wf(&self) -> bool {
        self.fsel@.len() == 6 && self.set@.len() == 2 && self.clr@.len() == 2 && self.lvl@.len()
            == 2
    }

    /// A register block with every word zero.
    pub fn new() -> (r: GpioRegisters)
        ensures
            r.wf(),
            forall|i: int| 0 <= i < 6 ==> #[trigger] r.fsel@[i] == 0,
    {
        GpioRegisters {
            fsel: vec![0u32, 0, 0, 0, 0, 0],
            set: vec![0u32, 0],
            clr: vec![0u32, 0],
            lvl: vec![0u32, 0],
        }
    }
}

/// The function-select field of `pin` within its register word.
pub open spec fn select_field(fsel: Seq<u32>, pin: u8) -> u32 {
    (fsel[(pin / 10) as int] >> ((pin % 10) * 3) as u32) & 7u32
}

/// One pin, whose function is tracked by its type parameter.
pub struct GPIO<State> {
    state: PhantomData<State>,
    pin: u8,
    registers: GpioRegisters,
}

proof fn lemma_field_update(w: u32, off: u32, other: u32, code: u32)
    requires
        off < 30,
        other < 30,
        off % 3 == 0,
        other % 3 == 0,
        code < 8,
    ensures
        ((((w & !(7u32 << off)) | (code << off)) >> off) & 7u32) == code,
        other != off ==> ((((w & !(7u32 << off)) | (code << off)) >> other) & 7u32) == ((w
            >> other) & 7u32),
{
    assert(((((w & !(7u32 << off)) | (code << off)) >> off) & 7u32) == code) by (bit_vector)
        requires
            off < 30,
            code < 8,
    ;
    if other != off {
        assert(((((w & !(7u32 << off)) | (code << off)) >> other) & 7u32) == ((w >> other) & 7u32))
            by (bit_vector)
            requires
                off < 30,
                other < 30,
                code < 8,
                off % 3 == 0,
                other % 3 == 0,
                other != off,
        ;
    }
}

impl<State> GPIO<State> {
    pub closed spec fn pin(&self) -> u8 {
        self.pin
    }

    pub closed spec fn regs(&self) -> GpioRegisters {
        self.registers
    }

    /// Gives the register block back.
    pub fn into_registers(self) -> (r: GpioRegisters)
        ensures
            r == self.regs(),
    {
        self.registers
    }

    /// Writes `function` into this pin's function-select field, leaving every
    /// other pin's field alone.
    fn transition<R>(self, function: Function) -> (r: GPIO<R>)
        requires
            self.pin < 54,
            self.registers.wf(),
        ensures
            r.pin == self.pin,
            r.registers.wf(),
            select_field(r.registers.fsel@, r.pin) == function_code(function),
            forall|p: u8|
                p < 54 && p != self.pin ==> #[trigger] select_field(r.registers.fsel@, p)
                    == select_field(self.registers.fsel@, p),
            r.registers.set@ == self.registers.set@,
            r.registers.clr@ == self.registers.clr@,
    {
        let offset: u32 = ((self.pin % 10) * 3) as u32;
        let reg: usize = (self.pin / 10) as usize;
        let mut registers = self.registers;
        let old_word = registers.fsel[reg];
        let code = function.code();
        let word = (old_word & !((0b111 as u32) << offset)) | (code << offset);
        registers.fsel.set(reg, word);
        proof {
            lemma_field_update(old_word, offset, offset, code);
            assert forall|p: u8| p < 54 && p != self.pin implies #[trigger] select_field(
                registers.fsel@,
                p,
            ) == select_field(self.registers.fsel@, p) by {
                if p / 10 == self.pin / 10 {
                    lemma_field_update(old_word, offset, ((p % 10) * 3) as u32, code);
                }
            }
        }
        GPIO { pin: self.pin, state: PhantomData, registers }
    }
}

impl GPIO<Uninitialized> {
    /// Pin `pin` of the block `registers`; pins run from 0 to 53.
    pub fn new(pin: u8, registers: GpioRegisters) -> (r: GPIO<Uninitialized>)
        requires
            pin <= 53,
            registers.wf(),
        ensures
            r.pin() == pin,
            r.regs() == registers,
    {
        GPIO { pin, state: PhantomData, registers }
    }

    /// Switches the pin to output.
    pub fn into_output(self) -> (r: GPIO<Output>)
        requires
            self.pin() < 54,
            self.regs().wf(),
        ensures
            r.pin() == self.pin(),
            r.regs().wf(),
            select_field(r.regs().fsel@, r.pin()) == function_code(Function::Output),
            forall|p: u8|
                p < 54 && p != self.pin() ==> #[trigger] select_field(r.regs().fsel@, p)
                    == select_field(self.regs().fsel@, p),
            r.regs().set@ == self.regs().set@,
            r.regs().clr@ == self.regs().clr@,
    {
        self.transition(Function::Output)
    }

    /// Switches the pin to input.
    pub fn into_input(self) -> (r: GPIO<Input>)
        requires
            self.pin() < 54,
            self.regs().wf(),
        ensures
            r.pin() == self.pin(),
            r.regs().wf(),
            select_field(r.regs().fsel@, r.pin()) == function_code(Function::Input),
            forall|p: u8|
                p < 54 && p != self.pin() ==> #[trigger] select_field(r.regs().fsel@, p)
                    == select_field(self.regs().fsel@, p),
            r.regs().set@ == self.regs().set@,
            r.regs().clr@ == self.regs().clr@,
    {
        self.transition(Function::Input)
    }

    /// Switches the pin to the alternate function `alt`.
    pub fn into_alt(self, alt: Function) -> (r: GPIO<Alternate>)
        requires
            self.pin() < 54,
            self.regs().wf(),
        ensures
            r.pin() == self.pin(),
            r.regs().wf(),
            select_field(r.regs().fsel@, r.pin()) == function_code(alt),
            forall|p: u8|
                p < 54 && p != self.pin() ==> #[trigger] select_field(r.regs().fsel@, p)
                    == select_field(self.regs().fsel@, p),
            r.regs().set@ == self.regs().set@,
            r.regs().clr@ == self.regs().clr@,
    {
        self.transition(alt)
    }

    /// Switches every pin to output and drives it low; returns the block.
    pub fn cleanup(registers: GpioRegisters) -> (r: GpioRegisters)
        requires
            registers.wf(),
        ensures
            r.wf(),
            forall|p: u8| p < 54 ==> #[trigger] select_field(r.fsel@, p) == function_code(
                Function::Output,
            ),
    {
        let mut regs = registers;
        let mut i: u8 = 0;
        while i < 54
            invariant
                i <= 54,
                regs.wf(),
                forall|p: u8| p < i ==> #[trigger] select_field(regs.fsel@, p) == function_code(
                    Function::Output,
                ),
            decreases 54 - i,
        {
            let mut pin = GPIO::new(i, regs).into_output();
            pin.clear();
            regs = pin.into_registers();
            i = i + 1;
        }
        regs
    }
}

impl GPIO<Output> {
    /// Drives the pin high.
    pub fn set(&mut self)
        requires
            old(self).pin() < 54,
            old(self).regs().wf(),
        ensures
            final(self).pin() == old(self).pin(),
            final(self).regs().wf(),
            final(self).regs().fsel@ == old(self).regs().fsel@,
            final(self).regs().clr@ == old(self).regs().clr@,
            final(self).regs().set@ == old(self).regs().set@.update(
                (old(self).pin() / 32) as int,
                1u32 << (old(self).pin() % 32) as u32,
            ),
    {
        let reg: usize = (self.pin / 32) as usize;
        let offset: u32 = (self.pin % 32) as u32;
        self.registers.set.set(reg, 1u32 << offset);
    }

    /// Drives the pin low.
    pub fn clear(&mut self)
        requires
            old(self).pin() < 54,
            old(self).regs().wf(),
        ensures
            final(self).pin() == old(self).pin(),
            final(self).regs().wf(),
            final(self).regs().fsel@ == old(self).regs().fsel@,
            final(self).regs().set@ == old(self).regs().set@,
            final(self).regs().clr@ == old(self).regs().clr@.update(
                (old(self).pin() / 32) as int,
                1u32 << (old(self).pin() % 32) as u32,
            ),
    {
        let reg: usize = (self.pin / 32) as usize;
        let offset: u32 = (self.pin % 32) as u32;
        self.registers.clr.set(reg, 1u32 << offset);
    }
}

} // verus!
