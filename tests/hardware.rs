use xmodem::atags::raw;
use xmodem::atags::raw::{AtagCore, AtagMem, Values, ATAG_CMD, ATAG_CORE, ATAG_MEM, ATAG_NONE};
use xmodem::atags::{Atag, Atags};
use xmodem::gpio::{Function, GpioRegisters, GPIO};
use xmodem::uart::UART;

#[test]
fn cleanup_makes_every_pin_an_output() {
    let regs = GPIO::cleanup(GpioRegisters::new());
    assert_eq!(regs.fsel[..5], [0x0924_9249u32; 5]);
    assert_eq!(regs.fsel[5], 0x249);
    assert_eq!(regs.clr[1], 1 << (53 - 32));
}

#[test]
fn alternate_function_lands_in_its_field() {
    let mut regs = GpioRegisters::new();
    regs.fsel[1] = 0xffff_ffff;
    let pin = GPIO::new(14, regs).into_alt(Function::Alt5);
    let regs = pin.into_registers();
    assert_eq!(regs.fsel[1], 0xffff_ffff & !(0b111 << 12) | (0b010 << 12));

    let regs = GPIO::new(15, regs).into_input().into_registers();
    assert_eq!(regs.fsel[1], 0xffff_ffff & !(0b111 << 12) & !(0b111 << 15) | (0b010 << 12));
}

#[test]
fn set_and_clear_write_the_pin_bit() {
    let mut pin = GPIO::new(40, GpioRegisters::new()).into_output();
    pin.set();
    pin.clear();
    let regs = pin.into_registers();
    assert_eq!(regs.set, vec![0, 1 << 8]);
    assert_eq!(regs.clr, vec![0, 1 << 8]);
    assert_eq!(regs.fsel[4], 0b001);
}

#[test]
fn function_codes() {
    assert_eq!(Function::Input.code(), 0b000);
    assert_eq!(Function::Output.code(), 0b001);
    assert_eq!(Function::Alt0.code(), 0b100);
    assert_eq!(Function::Alt4.code(), 0b011);
    assert_eq!(Function::Alt5.code(), 0b010);
}

#[test]
fn atags_are_read_in_order() {
    let words = vec![
        5, ATAG_CORE, 1, 4096, 0,
        4, ATAG_MEM, 0x1000_0000, 0,
        4, ATAG_CMD, u32::from_le_bytes(*b"ab c"), u32::from_le_bytes(*b"d\0\0\0"),
        2, ATAG_NONE,
    ];
    let mut tags = Atags::get(words);
    assert_eq!(tags.next(), Some(Atag::Core(AtagCore { flags: 1, page_size: 4096, root_dev: 0 })));
    assert_eq!(tags.next(), Some(Atag::Mem(AtagMem { size: 0x1000_0000, start: 0 })));
    assert_eq!(tags.next(), Some(Atag::Cmd(b"ab cd".to_vec())));
    assert_eq!(tags.next(), None);
    assert_eq!(tags.next(), None);
}

#[test]
fn malformed_atags_stop_the_walk() {
    let mut tags = Atags::get(vec![9, ATAG_CORE, 1]);
    assert_eq!(tags.next(), None);
    let mut tags = Atags::get(vec![3, 0x1234, 7, 2, ATAG_NONE]);
    assert_eq!(tags.next(), Some(Atag::Other));
    assert_eq!(tags.next(), None);
    let mut tags = Atags::get(vec![2, ATAG_CORE, 2, ATAG_NONE]);
    assert_eq!(tags.next(), Some(Atag::Other));
    assert_eq!(tags.next(), None);
}

#[test]
fn tag_values() {
    assert_eq!(Values::from_tag(ATAG_MEM), Some(Values::MEM));
    assert_eq!(Values::from_tag(0), Some(Values::NONE));
    assert_eq!(Values::from_tag(17), None);
}

#[test]
fn uart_fifo_and_timeout() {
    let mut uart = UART::new(vec![7, 8]);
    assert!(uart.has_byte());
    assert_eq!(uart.wait_for_byte(), Ok(()));
    assert_eq!(uart.read_byte(), 7);
    assert_eq!(uart.read_byte(), 8);
    assert!(!uart.has_byte());
    uart.set_read_timeout(100);
    assert_eq!(uart.wait_for_byte(), Err(()));
    uart.write_byte(3);
    uart.write_byte(4);
    assert_eq!(uart.sent(), vec![3, 4]);
}

#[test]
fn uart_text_gets_carriage_returns() {
    let mut uart = UART::new(vec![]);
    uart.write_str("a\nb\n");
    assert_eq!(uart.sent(), vec![b'a', b'\r', b'\n', b'b', b'\r', b'\n']);
}

#[test]
fn uart_bulk_write_and_read() {
    let mut uart = UART::new(vec![5, 6, 7]);
    assert_eq!(uart.write(&[1, 2, 3]), 3);
    assert_eq!(uart.sent(), vec![1, 2, 3]);
    let mut buf = vec![0u8; 2];
    assert_eq!(uart.read(&mut buf), 2);
    assert_eq!(buf, vec![5, 6]);
    let mut buf = vec![9u8; 4];
    assert_eq!(uart.read(&mut buf), 1);
    assert_eq!(buf, vec![7, 9, 9, 9]);
    uart.set_read_timeout(10);
    assert_eq!(uart.read(&mut buf), 0);
}

#[test]
fn raw_records_are_bounds_checked() {
    let words = [4u32, ATAG_MEM, 0x100, 0x200, 2, ATAG_NONE];
    let rec = raw::Atag::parse(&words, 0).unwrap();
    assert_eq!(rec.size, 4);
    assert_eq!(rec.tag, ATAG_MEM);
    assert_eq!(rec.kind, vec![0x100, 0x200]);
    assert_eq!(rec.next(0), Some(4));
    let end = raw::Atag::parse(&words, 4).unwrap();
    assert_eq!(end.next(4), None);
    assert!(raw::Atag::parse(&words, 5).is_none());
    assert!(raw::Atag::parse(&words, 7).is_none());
    assert!(raw::Atag::parse(&[1, ATAG_CORE], 0).is_none());
    assert!(raw::Atag::parse(&[5, ATAG_CORE, 0], 0).is_none());
    assert_eq!(Atag::from_raw(&rec), Atag::Mem(AtagMem { size: 0x100, start: 0x200 }));
}
