use hdsplib::dispatch::{dispatch, Action};
use hdsplib::packet::Packet;
use hdsplib::random::LCG;
use hdsplib::utils::udiv_ceil;

#[test]
fn lcg_sequence() {
    let mut g = LCG::new(0);
    assert_eq!(g.next(), 1013904223);
    assert_eq!(g.next(), 1196435762);
    assert_eq!(g.next(), 3519870697);
    let mut h = LCG::new(12345);
    assert_eq!(h.next(), 87628868);
}

#[test]
fn ceil_division() {
    assert_eq!(udiv_ceil(0, 254), 0);
    assert_eq!(udiv_ceil(1, 254), 1);
    assert_eq!(udiv_ceil(254, 254), 1);
    assert_eq!(udiv_ceil(255, 254), 2);
    assert_eq!(udiv_ceil(12241, 254), 49);
    assert_eq!(udiv_ceil(usize::MAX, 2), usize::MAX / 2 + 1);
}

#[test]
fn dispatch_by_command() {
    let mut p = Packet::new();
    p.set_command(0x01);
    assert_eq!(dispatch(&p), Action::DrawScreenBuffer);
    p.set_command(0x02);
    assert_eq!(dispatch(&p), Action::Acknowledge);
    p.set_command(0x00);
    assert_eq!(dispatch(&p), Action::Ignore);
    p.set_command(0x9A);
    assert_eq!(dispatch(&p), Action::Ignore);
}
