use hdsplib::cast::{screen_buffer_to_packets, SCREEN_BUFFER_MAX_PACKETS};
use hdsplib::packet::{Command, MAX_PACKET_PAYLOAD_SIZE};

fn screen() -> [[u8; 50]; 240] {
    let mut s = [[0u8; 50]; 240];
    for (r, row) in s.iter_mut().enumerate() {
        for (c, b) in row.iter_mut().enumerate() {
            *b = ((r * 7 + c) % 256) as u8;
        }
    }
    s
}

fn layout(s: &[[u8; 50]; 240], lines: &[u8]) -> Vec<u8> {
    let mut v = vec![lines.len() as u8];
    v.extend_from_slice(lines);
    for &l in lines {
        v.extend_from_slice(&s[l as usize]);
    }
    v
}

fn assert_split(lines: &[u8], expected_packets: usize) {
    let s = screen();
    let (packets, n) = screen_buffer_to_packets(s, lines);
    assert_eq!(n, expected_packets);
    let mut joined = Vec::new();
    for p in &packets[..n] {
        assert_eq!(p.command(), u8::from(Command::CMD_SCREEN_BUFFER));
        assert!(p.get_payload().len() <= MAX_PACKET_PAYLOAD_SIZE);
        joined.extend_from_slice(p.get_payload());
    }
    assert_eq!(joined, layout(&s, lines));
}

#[test]
fn no_rows_is_one_packet() {
    assert_split(&[], 1);
}

#[test]
fn four_rows_fit_one_packet() {
    assert_split(&[3, 1, 200, 7], 1);
}

#[test]
fn five_rows_need_two_packets() {
    assert_split(&[0, 5, 239, 5, 12], 2);
}

#[test]
fn full_screen_update() {
    let lines: Vec<u8> = (0..240).map(|i| i as u8).collect();
    assert_split(&lines, 49);
    assert_eq!(SCREEN_BUFFER_MAX_PACKETS, 49);
}

#[test]
fn packet_count_formula() {
    for k in [1usize, 10, 100, 239] {
        let lines: Vec<u8> = (0..k).map(|i| (i * 3 % 240) as u8).collect();
        assert_split(&lines, (1 + k + 50 * k + 253) / 254);
    }
}
