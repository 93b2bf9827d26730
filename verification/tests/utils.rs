use std::time::Instant;
use tmrecv::header::packet_header;
use tmrecv::utils::DataRateCounter;

#[test]
fn counter_adds_updates() {
    let mut c = DataRateCounter::default();
    assert_eq!(c.count(), 0);
    c.update(10);
    c.update(5);
    assert_eq!(c.count(), 15);
}

#[test]
fn roll_over_waits_for_the_window() {
    let mut c = DataRateCounter::default();
    let start = c.start();
    c.update(100);
    let now = Instant::now();
    assert_eq!(c.roll_over(now, false), None);
    assert_eq!(c.count(), 100);
    assert_eq!(c.start(), start);
    assert_eq!(c.roll_over(now, true), Some(100));
    assert_eq!(c.count(), 0);
    assert_eq!(c.start(), now);
}

#[test]
fn roll_over_needs_bytes() {
    let mut c = DataRateCounter::default();
    let start = c.start();
    assert_eq!(c.roll_over(Instant::now(), true), None);
    assert_eq!(c.start(), start);
}

#[test]
fn header_fields_are_little_endian() {
    let pkt = [0xAD, 0xDA, 0xAD, 0xBA, 0x02, 0x01, 0x34, 0x12, 0xFF];
    let h = packet_header(&pkt).unwrap();
    assert_eq!(h.presync, 0xBAADDAAD);
    assert_eq!(h.version, 0x0102);
    assert_eq!(h.pkt_type, 0x1234);
}

#[test]
fn header_needs_more_than_eight_bytes() {
    assert!(packet_header(&[0; 8]).is_none());
    assert!(packet_header(&[]).is_none());
    assert!(packet_header(&[0; 9]).is_some());
}

#[test]
fn counter_starting_at_a_moment() {
    let now = Instant::now();
    let c = DataRateCounter::starting_at(now);
    assert_eq!(c.count(), 0);
    assert_eq!(c.start(), now);
}
