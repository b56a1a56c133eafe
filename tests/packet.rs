use hdsplib::cobs::DecodeError;
use hdsplib::packet::{Command, EncodeError, Packet, MAX_ENCODED_SIZE, MAX_PACKET_PAYLOAD_SIZE};

#[test]
fn test_packet() {
    let encoded_data_good = [0x02, 0x23, 0x03, 0xD4, 0x81, 0x02, 0xFA, 0x00];
    let packet = Packet::from_cobs(&encoded_data_good).unwrap();

    assert_eq!(&packet.data()[..packet.size], &[0x23, 0x00, 0xD4, 0x81, 0x00, 0xFA]);

    let (encoded_data, encoded_size) = packet.to_cobs_slice();
    assert_eq!(encoded_data[0..encoded_size], encoded_data_good);

    let mut encoded_data_good = [0x00; 258];
    for i in 1..255 {
        encoded_data_good[i] = i as u8;
    }
    encoded_data_good[0] = 0xFF;
    encoded_data_good[255] = 0x02;
    encoded_data_good[256] = 0xFF;
    encoded_data_good[257] = 0x00;

    let packet = Packet::from_cobs(&encoded_data_good).unwrap();

    let mut decoded_data = [0x00; 255];
    for i in 0..255 {
        decoded_data[i] = i as u8 + 1;
    }
    assert_eq!(&packet.data()[..packet.size], &decoded_data);

    let (encoded_data, encoded_size) = packet.to_cobs_slice();
    assert_eq!(encoded_data[0..encoded_size], encoded_data_good);

    let mut encoded_data_good = [0x00; 258];
    for i in 1..255 {
        encoded_data_good[i] = i as u8 + 1;
    }
    encoded_data_good[0] = 0xFF;
    encoded_data_good[255] = 0x01;
    encoded_data_good[256] = 0x01;
    encoded_data_good[257] = 0x00;

    let packet = Packet::from_cobs(&encoded_data_good).unwrap();
    let mut decoded_data = [0x00; 255];
    for i in 0..254 {
        decoded_data[i] = i as u8 + 2;
    }
    assert_eq!(&packet.data()[..packet.size], &decoded_data);

    let (encoded_data, encoded_size) = packet.to_cobs_slice();
    assert_eq!(encoded_data[0..encoded_size], encoded_data_good);

    let mut encoded_data_good = [0x00; 257];
    for i in 1..254 {
        encoded_data_good[i] = i as u8 + 2;
    }
    encoded_data_good[0] = 0xFE;
    encoded_data_good[254] = 0x02;
    encoded_data_good[255] = 0x01;
    encoded_data_good[256] = 0x00;
    let packet = Packet::from_cobs(&encoded_data_good).unwrap();

    let mut decoded_data = [0x00; 255];
    for i in 0..253 {
        decoded_data[i] = i as u8 + 3;
    }
    decoded_data[253] = 0x00;
    decoded_data[254] = 0x01;
    assert_eq!(&packet.data()[..packet.size], &decoded_data);

    let (encoded_data, encoded_size) = packet.to_cobs_slice();
    assert_eq!(encoded_data[0..encoded_size], encoded_data_good);
}

fn packet_of(content: &[u8]) -> Packet {
    let mut p = Packet::new();
    p.set_command(content[0]);
    p.set_payload(&content[1..]).unwrap();
    p
}

fn encode(content: &[u8]) -> Vec<u8> {
    let (buf, n) = packet_of(content).to_cobs_slice();
    buf[..n].to_vec()
}

fn decode(frame: &[u8]) -> Result<Vec<u8>, DecodeError> {
    Packet::from_cobs(frame).map(|p| p.data()[..p.size].to_vec())
}

#[test]
fn encode_scenario_with_zeros() {
    let content = [0x23, 0x00, 0xD4, 0x81, 0x00, 0xFA];
    let frame = encode(&content);
    assert_eq!(frame, vec![0x02, 0x23, 0x03, 0xD4, 0x81, 0x02, 0xFA, 0x00]);
    assert_eq!(decode(&frame).unwrap(), content.to_vec());
}

#[test]
fn encode_single_byte() {
    assert_eq!(encode(&[0x01]), vec![0x02, 0x01, 0x00]);
    assert_eq!(encode(&[0x00]), vec![0x01, 0x01, 0x00]);
}

#[test]
fn run_of_254_at_end_has_no_extra_block() {
    let content: Vec<u8> = (1..=254).map(|i| i as u8).collect();
    let frame = encode(&content);
    let mut expected = vec![0xFF];
    expected.extend_from_slice(&content);
    expected.push(0x00);
    assert_eq!(frame, expected);
    assert_eq!(decode(&frame).unwrap(), content);
}

#[test]
fn run_of_254_then_zero_keeps_the_zero() {
    let mut content: Vec<u8> = (1..=254).map(|i| i as u8).collect();
    content.push(0x00);
    let frame = encode(&content);
    let mut expected = vec![0xFF];
    expected.extend_from_slice(&content[..254]);
    expected.extend_from_slice(&[0x01, 0x01, 0x00]);
    assert_eq!(frame, expected);
    assert_eq!(decode(&frame).unwrap(), content);
}

#[test]
fn round_trip_sweeps_zero_positions() {
    for len in 1..=255usize {
        for zero_at in [None, Some(0), Some(len / 2), Some(len - 1), Some(252), Some(253), Some(254)] {
            let mut content: Vec<u8> = (0..len).map(|i| (i % 255) as u8 + 1).collect();
            if let Some(z) = zero_at {
                if z < len {
                    content[z] = 0;
                }
            }
            let frame = encode(&content);
            assert!(frame.len() <= len + (len + 253) / 254 + 1);
            assert!(frame.len() <= MAX_ENCODED_SIZE);
            assert_eq!(*frame.last().unwrap(), 0x00);
            assert!(frame[..frame.len() - 1].iter().all(|&b| b != 0));
            assert_eq!(decode(&frame).unwrap(), content);
        }
    }
}

#[test]
fn round_trip_all_zeros() {
    let content = vec![0u8; 255];
    let frame = encode(&content);
    assert_eq!(frame.len(), 257);
    assert_eq!(decode(&frame).unwrap(), content);
}

#[test]
fn decode_pointer_past_end_is_truncated() {
    assert_eq!(decode(&[0x05, 0x11, 0x00]), Err(DecodeError::Truncated));
    assert_eq!(decode(&[0x02, 0x11, 0x04, 0x22, 0x00]), Err(DecodeError::Truncated));
}

#[test]
fn decode_without_delimiter_is_truncated() {
    assert_eq!(decode(&[]), Err(DecodeError::Truncated));
    assert_eq!(decode(&[0x00]), Err(DecodeError::Truncated));
    assert_eq!(decode(&[0x02, 0x11]), Err(DecodeError::Truncated));
}

#[test]
fn decode_too_long_is_overflow() {
    let mut frame = vec![0xFF];
    frame.extend(std::iter::repeat(0x01).take(254));
    frame.extend_from_slice(&[0x03, 0x01, 0x01, 0x00]);
    assert_eq!(decode(&frame), Err(DecodeError::PayloadOverflow));
}

#[test]
fn decode_empty_content() {
    let p = Packet::from_cobs(&[0x01, 0x00]).unwrap();
    assert_eq!(p.size, 0);
}

#[test]
fn set_payload_limits() {
    let mut p = Packet::new();
    p.set_command(0x02);
    let big = vec![7u8; MAX_PACKET_PAYLOAD_SIZE + 1];
    assert_eq!(p.set_payload(&big), Err(EncodeError::PayloadTooLarge));
    assert_eq!(p.size, 0);
    let max = vec![7u8; MAX_PACKET_PAYLOAD_SIZE];
    assert_eq!(p.set_payload(&max), Ok(()));
    assert_eq!(p.size, MAX_PACKET_PAYLOAD_SIZE + 1);
    assert_eq!(p.command(), 0x02);
    assert_eq!(p.get_payload(), &max[..]);
}

#[test]
fn payload_and_command_accessors() {
    let mut p = Packet::new();
    assert_eq!(p.command(), 0);
    p.set_command(0x01);
    p.set_payload(&[9, 8, 7]).unwrap();
    assert_eq!(p.command(), 0x01);
    assert_eq!(p.get_payload(), &[9, 8, 7]);
    assert_eq!(&p.data()[..4], &[1, 9, 8, 7]);
    p.data_mut()[2] = 5;
    assert_eq!(p.get_payload(), &[9, 5, 7]);
}

#[test]
fn command_codes() {
    assert_eq!(u8::from(Command::CMD_INVALID), 0x00);
    assert_eq!(u8::from(Command::CMD_SCREEN_BUFFER), 0x01);
    assert_eq!(u8::from(Command::CMD_ACK), 0x02);
    assert_eq!(Command::from(0x01), Command::CMD_SCREEN_BUFFER);
    assert_eq!(Command::from(0x02), Command::CMD_ACK);
    assert_eq!(Command::from(0x00), Command::CMD_INVALID);
    assert_eq!(Command::from(0x37), Command::CMD_INVALID);
}
