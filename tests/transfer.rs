use xmodem::packet::{checksum, ACK, CAN, EOT, NAK, SOH};
use xmodem::uart::UART;
use xmodem::xmodem::{Xmodem, XmodemError};

fn frame(n: u8, data: &[u8]) -> Vec<u8> {
    let mut f = vec![SOH, n, 255 - n];
    f.extend_from_slice(data);
    f.push(checksum(data));
    f
}

fn sample(len: usize) -> Vec<u8> {
    (0..len).map(|i| (i * 7 + 1) as u8).collect()
}

#[test]
fn checksum_is_wrapping_sum_mod_255() {
    assert_eq!(checksum(&[1, 2, 3]), 6);
    assert_eq!(checksum(&[255u8; 128]), 128);
    assert_eq!(checksum(&[200, 55]), 0);
    assert_eq!(checksum(&[]), 0);
}

#[test]
fn empty_transfer_is_one_end_exchange() {
    let (r, chan) = Xmodem::transmit(&[], UART::new(vec![NAK, NAK, ACK]));
    assert_eq!(r, Ok(0));
    assert_eq!(chan.sent(), vec![EOT, EOT]);

    let mut sink = Vec::new();
    let (r, chan) = Xmodem::receive(UART::new(vec![EOT, EOT]), &mut sink);
    assert_eq!(r, Ok(0));
    assert!(sink.is_empty());
    assert_eq!(chan.sent(), vec![NAK, NAK, ACK]);
}

#[test]
fn one_hundred_thirty_bytes_make_two_packets() {
    let data = sample(130);
    let replies = vec![NAK, ACK, ACK, NAK, ACK];
    let (r, sender) = Xmodem::transmit(&data, UART::new(replies.clone()));
    assert_eq!(r, Ok(130));
    let wire = sender.sent();
    let mut second = data[128..].to_vec();
    second.resize(128, 0);
    let mut expected = frame(1, &data[..128]);
    expected.extend(frame(2, &second));
    expected.extend([EOT, EOT]);
    assert_eq!(wire, expected);

    let mut sink = Vec::new();
    let (r, receiver) = Xmodem::receive(UART::new(wire), &mut sink);
    assert_eq!(r, Ok(256));
    assert_eq!(sink.len(), 256);
    assert_eq!(&sink[..130], &data[..]);
    assert!(sink[130..].iter().all(|b| *b == 0));
    assert_eq!(receiver.sent(), replies);
}

#[test]
fn round_trip_of_several_lengths() {
    for len in [1usize, 127, 128, 129, 256, 1000] {
        let data = sample(len);
        let packets = (len + 127) / 128;
        let mut replies = vec![NAK];
        replies.extend(std::iter::repeat(ACK).take(packets));
        replies.extend([NAK, ACK]);
        let (r, sender) = Xmodem::transmit(&data, UART::new(replies.clone()));
        assert_eq!(r, Ok(len));
        let mut sink = Vec::new();
        let (r, receiver) = Xmodem::receive(UART::new(sender.sent()), &mut sink);
        assert_eq!(r, Ok(packets * 128));
        assert_eq!(&sink[..len], &data[..]);
        assert!(sink[len..].iter().all(|b| *b == 0));
        assert_eq!(receiver.sent(), replies);
    }
}

#[test]
fn corrupted_packet_is_refused_and_resent() {
    let data = sample(128);
    let good = frame(1, &data);
    let mut bad = good.clone();
    bad[8] ^= 0x40;

    let mut wire = bad;
    wire.extend(good.clone());
    wire.extend([EOT, EOT]);
    let mut sink = Vec::new();
    let (r, receiver) = Xmodem::receive(UART::new(wire), &mut sink);
    assert_eq!(r, Ok(128));
    assert_eq!(sink, data);
    assert_eq!(receiver.sent(), vec![NAK, NAK, ACK, NAK, ACK]);

    let (r, sender) = Xmodem::transmit(&data, UART::new(vec![NAK, NAK, ACK, NAK, ACK]));
    assert_eq!(r, Ok(128));
    let mut expected = good.clone();
    expected.extend(good);
    expected.extend([EOT, EOT]);
    assert_eq!(sender.sent(), expected);
}

#[test]
fn ten_refusals_exhaust_the_retries() {
    let data = sample(128);
    let mut x = Xmodem::new(UART::new(vec![NAK; 11]));
    assert_eq!(x.write_packet(&data), Err(XmodemError::RetriesExhausted));
    let chan = x.into_inner();
    assert_eq!(chan.sent().len(), 10 * 132);
    assert_eq!(chan.sent()[..132], frame(1, &data)[..]);
    assert!(!chan.has_byte());

    let (r, _) = Xmodem::transmit(&data, UART::new(vec![NAK; 11]));
    assert_eq!(r, Err(XmodemError::RetriesExhausted));
}

#[test]
fn nine_refusals_then_ack_succeeds() {
    let data = sample(128);
    let mut replies = vec![NAK; 10];
    replies.push(ACK);
    let mut x = Xmodem::new(UART::new(replies));
    assert_eq!(x.write_packet(&data), Ok(128));
    assert_eq!(x.into_inner().sent().len(), 10 * 132);
}

#[test]
fn cancellation_stops_the_sender() {
    let data = sample(128);
    let (r, chan) = Xmodem::transmit(&data, UART::new(vec![NAK, CAN, ACK]));
    assert_eq!(r, Err(XmodemError::Aborted));
    assert_eq!(chan.sent(), frame(1, &data));

    let (r, chan) = Xmodem::transmit(&data, UART::new(vec![CAN]));
    assert_eq!(r, Err(XmodemError::Aborted));
    assert!(chan.sent().is_empty());

    let (r, chan) = Xmodem::transmit(&[], UART::new(vec![NAK, CAN]));
    assert_eq!(r, Err(XmodemError::Aborted));
    assert_eq!(chan.sent(), vec![EOT]);
}

#[test]
fn cancellation_stops_the_receiver() {
    let mut sink = Vec::new();
    let (r, chan) = Xmodem::receive(UART::new(vec![CAN, SOH]), &mut sink);
    assert_eq!(r, Err(XmodemError::Aborted));
    assert_eq!(chan.sent(), vec![NAK]);
    assert!(chan.has_byte());

    let (r, chan) = Xmodem::receive(UART::new(vec![SOH, 1, CAN]), &mut sink);
    assert_eq!(r, Err(XmodemError::Aborted));
    assert_eq!(chan.sent(), vec![NAK]);

    let (r, chan) = Xmodem::receive(UART::new(vec![EOT, CAN]), &mut sink);
    assert_eq!(r, Err(XmodemError::Aborted));
    assert_eq!(chan.sent(), vec![NAK, NAK]);
    assert!(sink.is_empty());
}

#[test]
fn short_buffer_is_refused_before_any_io() {
    let mut x = Xmodem::new(UART::new(vec![SOH]));
    let mut buf = vec![0u8; 127];
    assert_eq!(x.read_packet(&mut buf), Err(XmodemError::BadLength));
    let chan = x.into_inner();
    assert!(chan.has_byte());
    assert!(chan.sent().is_empty());
}

#[test]
fn wrong_packet_size_is_refused() {
    let mut x = Xmodem::new(UART::new(vec![NAK]));
    assert_eq!(x.write_packet(&[1, 2, 3]), Err(XmodemError::BadLength));
    let chan = x.into_inner();
    assert!(chan.has_byte());
    assert!(chan.sent().is_empty());
}

#[test]
fn protocol_violations() {
    let mut sink = Vec::new();
    let (r, chan) = Xmodem::receive(UART::new(vec![SOH, 2, 253]), &mut sink);
    assert_eq!(r, Err(XmodemError::Protocol));
    assert_eq!(chan.sent(), vec![NAK, CAN]);

    let (r, chan) = Xmodem::receive(UART::new(vec![SOH, 1, 7]), &mut sink);
    assert_eq!(r, Err(XmodemError::Protocol));
    assert_eq!(chan.sent(), vec![NAK, CAN]);

    let (r, chan) = Xmodem::receive(UART::new(vec![0x42]), &mut sink);
    assert_eq!(r, Err(XmodemError::Protocol));
    assert_eq!(chan.sent(), vec![NAK]);

    let (r, chan) = Xmodem::receive(UART::new(vec![EOT, SOH]), &mut sink);
    assert_eq!(r, Err(XmodemError::Protocol));
    assert_eq!(chan.sent(), vec![NAK, NAK]);

    let (r, _) = Xmodem::transmit(&[], UART::new(vec![ACK]));
    assert_eq!(r, Err(XmodemError::Protocol));

    let (r, _) = Xmodem::transmit(&[1], UART::new(vec![NAK, 0x42]));
    assert_eq!(r, Err(XmodemError::Protocol));

    let (r, _) = Xmodem::transmit(&[], UART::new(vec![NAK, NAK, NAK]));
    assert_eq!(r, Err(XmodemError::Protocol));
}

#[test]
fn silent_channel_is_a_channel_error() {
    let (r, chan) = Xmodem::transmit(&[9; 10], UART::new(vec![]));
    assert_eq!(r, Err(XmodemError::Channel));
    assert!(chan.sent().is_empty());

    let mut sink = Vec::new();
    let (r, chan) = Xmodem::receive(UART::new(vec![SOH, 1, 254, 5, 6]), &mut sink);
    assert_eq!(r, Err(XmodemError::Channel));
    assert_eq!(chan.sent(), vec![NAK]);
}

#[test]
fn packet_number_advances_per_packet() {
    let data = sample(128);
    let mut x = Xmodem::new(UART::new(vec![NAK, ACK, ACK]));
    assert_eq!(x.write_packet(&data), Ok(128));
    assert_eq!(x.write_packet(&data), Ok(128));
    let sent = x.into_inner().sent();
    assert_eq!(sent[132..], frame(2, &data)[..]);
}

#[test]
fn flush_keeps_the_channel() {
    let mut x = Xmodem::new(UART::new(vec![1, 2]));
    x.flush();
    let chan = x.into_inner();
    assert!(chan.has_byte());
    assert!(chan.sent().is_empty());
}

#[test]
fn checksum_equal_to_cancel_byte_reads_as_cancellation() {
    let data = [CAN];
    let (r, sender) = Xmodem::transmit(&data, UART::new(vec![NAK, ACK, NAK, ACK]));
    assert_eq!(r, Ok(1));
    let wire = sender.sent();
    assert_eq!(wire[131], CAN);
    let mut sink = Vec::new();
    let (r, receiver) = Xmodem::receive(UART::new(wire), &mut sink);
    assert_eq!(r, Err(XmodemError::Aborted));
    assert_eq!(receiver.sent(), vec![NAK]);
    assert!(sink.is_empty());
}

#[test]
fn packet_numbers_wrap_after_255() {
    let data = vec![3u8; 128 * 256];
    let mut replies = vec![NAK];
    replies.extend(std::iter::repeat(ACK).take(256));
    replies.extend([NAK, ACK]);
    let (r, sender) = Xmodem::transmit(&data, UART::new(replies));
    assert_eq!(r, Ok(128 * 256));
    let wire = sender.sent();
    assert_eq!(wire[254 * 132 + 1], 255);
    assert_eq!(wire[254 * 132 + 2], 0);
    assert_eq!(wire[255 * 132 + 1], 0);
    assert_eq!(wire[255 * 132 + 2], 255);
}
