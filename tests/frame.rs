use hdsplib::circ_buff::CircBuff;
use hdsplib::cobs::DecodeError;
use hdsplib::frame::FrameReader;

fn content(r: Option<Result<hdsplib::packet::Packet, DecodeError>>) -> Result<Vec<u8>, DecodeError> {
    r.expect("a frame was completed").map(|p| p.data()[..p.size].to_vec())
}

#[test]
fn feed_completes_frame_at_delimiter() {
    let mut reader = FrameReader::new();
    for &b in &[0x02, 0x23, 0x03, 0xD4, 0x81, 0x02, 0xFA] {
        assert!(reader.feed(b).is_none());
    }
    assert_eq!(content(reader.feed(0x00)), Ok(vec![0x23, 0x00, 0xD4, 0x81, 0x00, 0xFA]));
}

#[test]
fn poll_takes_one_frame_at_a_time() {
    let mut rx: CircBuff<u8, 64> = CircBuff::new();
    for &b in &[0x03, 0x01, 0x07, 0x00, 0x02, 0x02, 0x00, 0x03] {
        rx.push(b);
    }
    let mut reader = FrameReader::new();
    assert_eq!(content(reader.poll(&mut rx)), Ok(vec![0x01, 0x07]));
    assert_eq!(rx.size(), 4);
    assert_eq!(content(reader.poll(&mut rx)), Ok(vec![0x02]));
    assert_eq!(rx.size(), 1);
    assert!(reader.poll(&mut rx).is_none());
    assert_eq!(rx.size(), 0);
    rx.push(0x09);
    rx.push(0x01);
    rx.push(0x00);
    assert_eq!(content(reader.poll(&mut rx)), Ok(vec![0x09, 0x01]));
}

#[test]
fn malformed_frame_is_reported_and_skipped() {
    let mut rx: CircBuff<u8, 16> = CircBuff::new();
    for &b in &[0x05, 0x11, 0x00, 0x02, 0x01, 0x00] {
        rx.push(b);
    }
    let mut reader = FrameReader::new();
    assert_eq!(content(reader.poll(&mut rx)), Err(DecodeError::Truncated));
    assert_eq!(content(reader.poll(&mut rx)), Ok(vec![0x01]));
}

#[test]
fn overlong_frame_is_dropped() {
    let mut reader = FrameReader::new();
    for _ in 0..300 {
        assert!(reader.feed(0x05).is_none());
    }
    assert_eq!(content(reader.feed(0x00)), Err(DecodeError::PayloadOverflow));
    reader.feed(0x02);
    reader.feed(0x02);
    assert_eq!(content(reader.feed(0x00)), Ok(vec![0x02]));
}

#[test]
fn empty_poll_returns_none() {
    let mut rx: CircBuff<u8, 4> = CircBuff::new();
    let mut reader = FrameReader::new();
    assert!(reader.poll(&mut rx).is_none());
}
