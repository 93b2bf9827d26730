use tmrecv::batch::{DatagramBatch, BATCH_CAPACITY};

#[test]
fn datagrams_collect_until_the_window_ends() {
    let mut b = DatagramBatch::new();
    assert_eq!(b.on_datagram(&[1; 10], false), None);
    assert_eq!(b.on_datagram(&[2; 5], false), None);
    assert_eq!(b.bytes().len(), 15);
    let mut expected = vec![1u8; 10];
    expected.extend_from_slice(&[2; 5]);
    assert_eq!(b.on_datagram(&[3], true), Some(expected));
    assert_eq!(b.bytes(), &vec![3u8]);
}

#[test]
fn a_full_batch_is_sent_before_it_overflows() {
    let mut b = DatagramBatch::new();
    assert_eq!(b.on_datagram(&[1; 10], false), None);
    assert_eq!(b.on_datagram(&vec![2u8; BATCH_CAPACITY - 10], false), None);
    assert_eq!(b.bytes().len(), BATCH_CAPACITY);
    let sent = b.on_datagram(&[3], false).unwrap();
    assert_eq!(sent.len(), BATCH_CAPACITY);
    assert_eq!(b.bytes(), &vec![3u8]);
}

#[test]
fn an_expired_window_sends_even_an_empty_batch() {
    let mut b = DatagramBatch::new();
    assert_eq!(b.on_datagram(&[7, 7], true), Some(vec![]));
    assert_eq!(b.bytes(), &vec![7u8, 7]);
}

#[test]
fn quiet_spell_flushes_then_stops() {
    let mut b = DatagramBatch::new();
    b.on_datagram(&[5, 6], false);
    assert_eq!(b.on_quiet(), Some(vec![5, 6]));
    assert!(b.bytes().is_empty());
    assert_eq!(b.on_quiet(), None);
}

#[test]
fn every_byte_is_forwarded_once_in_order() {
    let mut b = DatagramBatch::new();
    let mut received = Vec::new();
    let mut forwarded = Vec::new();
    for i in 0..50u32 {
        let d = vec![(i % 251) as u8; (i as usize * 997) % 16384];
        received.extend_from_slice(&d);
        if let Some(s) = b.on_datagram(&d, i % 7 == 3) {
            assert!(s.len() <= BATCH_CAPACITY);
            forwarded.extend_from_slice(&s);
        }
        if i % 11 == 5 {
            if let Some(s) = b.on_quiet() {
                forwarded.extend_from_slice(&s);
            }
        }
    }
    forwarded.extend_from_slice(b.bytes());
    assert_eq!(forwarded, received);
}
