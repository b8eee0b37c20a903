use xmodem::volatile::{ReadVolatile, Readable, ReadableWriteable, Reserved, Volatile, Writeable};

struct Register {
    _res: [Reserved<u32>; 2],
    _read: ReadVolatile<u32>,
    _write: Volatile<u32>,
}

fn register_over(val: &[u32; 4]) -> Register {
    Register {
        _res: [Reserved::new(val[0]), Reserved::new(val[1])],
        _read: ReadVolatile::new(val[2]),
        _write: Volatile::new(val[3]),
    }
}

#[test]
fn read_from_ptr() {
    let val = [5, 15, 8, 6];
    let reg = register_over(&val);
    assert_eq!(val[2], reg._read.read());
}

#[test]
fn write_to_ptr() {
    let mut val = [5, 15, 8, 6];
    let mut reg = register_over(&val);
    reg._write.write(8);
    val[3] = reg._write.read();

    assert_eq!(val[3], 8);
}

#[test]
fn masks_change_only_their_bits() {
    let mut reg = Volatile::new(0b1010);
    assert!(reg.has_mask(0b1000));
    assert!(!reg.has_mask(0b0101));
    reg.or_mask(0b0001);
    assert_eq!(reg.read(), 0b1011);
    reg.and_mask(!0b0010);
    assert_eq!(reg.read(), 0b1001);
}
