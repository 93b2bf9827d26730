use tmrecv::frame::PiccFrame;

const PRE: [u8; 4] = [0xAD, 0xDA, 0xAD, 0xBA];
const POST: [u8; 4] = [0xEF, 0xBE, 0xAD, 0xDE];

fn join(parts: &[&[u8]]) -> Vec<u8> {
    let mut v = Vec::new();
    for p in parts {
        v.extend_from_slice(p);
    }
    v
}

#[test]
fn markers_are_little_endian_words() {
    assert_eq!(PRE, 0xBAADDAADu32.to_le_bytes());
    assert_eq!(POST, 0xDEADBEEFu32.to_le_bytes());
}

#[test]
fn whole_packet_in_one_push() {
    let mut f = PiccFrame::default();
    let pkt = join(&[&PRE, &[1, 2, 3], &POST]);
    assert_eq!(f.push(&pkt), Ok(vec![pkt.clone()]));
    assert_eq!(f.push(&[]), Ok(vec![]));
}

#[test]
fn packet_split_across_pushes() {
    let mut f = PiccFrame::default();
    assert_eq!(f.push(&join(&[&PRE, &[1, 2]])), Ok(vec![]));
    assert_eq!(f.push(&join(&[&[3], &POST])), Ok(vec![join(&[&PRE, &[1, 2, 3], &POST])]));
}

#[test]
fn markers_split_across_pushes() {
    let mut f = PiccFrame::default();
    assert_eq!(f.push(&[0xAD, 0xDA]), Ok(vec![]));
    assert_eq!(f.push(&[0xAD, 0xBA, 7, 0xEF, 0xBE]), Ok(vec![]));
    assert_eq!(f.push(&[0xAD, 0xDE]), Ok(vec![join(&[&PRE, &[7], &POST])]));
}

#[test]
fn bytes_before_the_start_marker_are_dropped() {
    let mut f = PiccFrame::default();
    let input = join(&[&[9, 9], &PRE, &[5], &POST, &[7]]);
    assert_eq!(f.push(&input), Ok(vec![join(&[&PRE, &[5], &POST])]));
    // the trailing byte is kept until a start marker shows up, then dropped
    assert_eq!(f.push(&join(&[&PRE, &[6], &POST])), Ok(vec![join(&[&PRE, &[6], &POST])]));
}

#[test]
fn no_marker_yields_nothing() {
    let mut f = PiccFrame::default();
    assert_eq!(f.push(&[1, 2, 3, 4, 5, 6, 7, 8, 9]), Ok(vec![]));
    assert_eq!(f.push(&POST), Ok(vec![]));
}

#[test]
fn second_start_marker_reports_malformed() {
    let mut f = PiccFrame::default();
    let input = join(&[&PRE, &[1], &PRE, &[2]]);
    assert_eq!(f.push(&input), Err(join(&[&PRE, &[1]])));
    // the second start marker is kept, and its packet completes later
    assert_eq!(f.push(&POST), Ok(vec![join(&[&PRE, &[2], &POST])]));
}

#[test]
fn packet_runs_to_the_last_end_marker() {
    let mut f = PiccFrame::default();
    let input = join(&[&PRE, &[1], &POST, &PRE, &[2], &POST]);
    assert_eq!(f.push(&input), Ok(vec![input.clone()]));
}

#[test]
fn start_marker_after_end_marker_reports_malformed() {
    let mut f = PiccFrame::default();
    let input = join(&[&PRE, &[1], &POST, &PRE, &[2]]);
    assert_eq!(f.push(&input), Err(join(&[&PRE, &[1], &POST])));
    assert_eq!(f.push(&[]), Ok(vec![]));
    assert_eq!(f.push(&join(&[&[3], &POST])), Ok(vec![join(&[&PRE, &[2, 3], &POST])]));
}

#[test]
fn malformed_runs_to_the_last_start_marker() {
    let mut f = PiccFrame::default();
    let input = join(&[&PRE, &[1], &POST, &[0], &PRE, &[2], &PRE, &[3]]);
    assert_eq!(f.push(&input), Err(join(&[&PRE, &[1], &POST, &[0], &PRE, &[2]])));
    assert_eq!(f.push(&POST), Ok(vec![join(&[&PRE, &[3], &POST])]));
}

#[test]
fn empty_push_after_success_changes_nothing() {
    let mut f = PiccFrame::default();
    assert_eq!(f.push(&join(&[&PRE, &[4, 4]])), Ok(vec![]));
    assert_eq!(f.push(&[]), Ok(vec![]));
    assert_eq!(f.push(&[]), Ok(vec![]));
    assert_eq!(f.push(&POST), Ok(vec![join(&[&PRE, &[4, 4], &POST])]));
}

#[test]
fn every_packet_is_framed_and_one_per_push() {
    let mut f = PiccFrame::default();
    let mut count = 0;
    for i in 0..20u8 {
        let payload = vec![i; i as usize];
        let input = join(&[&[i, i], &PRE, &payload, &POST, &[i]]);
        let (a, b) = input.split_at(input.len() / 2);
        for piece in [a, b] {
            let packets = f.push(piece).unwrap();
            assert!(packets.len() <= 1);
            for p in &packets {
                assert_eq!(p[..4], PRE);
                assert_eq!(p[p.len() - 4..], POST);
                assert_eq!(p[4..p.len() - 4], payload[..]);
                count += 1;
            }
        }
    }
    assert_eq!(count, 20);
}
