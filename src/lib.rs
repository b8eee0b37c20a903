//! A bootloader's transfer stack: the XMODEM protocol engine over an abstract
//! duplex byte channel, and models of the board's mini UART, GPIO pins,
//! register words and ATAGS boot records.

pub mod atags;
pub mod channel;
pub mod gpio;
pub mod outcomes;
pub mod packet;
pub mod roundtrip;
pub mod uart;
pub mod volatile;
pub mod xmodem;
