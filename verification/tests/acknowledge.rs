//! Acknowledgement packets, byte by byte.

use pumpkin_formats::acknowledge::{AckError, Acknowledge, MAX_ACK_RECORDS, MAX_ACK_SEQUENCES};

fn written(sequences: &[u32], id: u8) -> Vec<u8> {
    let ack = Acknowledge::new(sequences.to_vec());
    assert!(ack.is_writable());
    let mut out = Vec::new();
    ack.write(&mut out, id);
    out
}

fn read(bytes: &[u8]) -> (Result<Vec<u32>, AckError>, usize) {
    let mut reader = bytes;
    let result = Acknowledge::read(&mut reader).map(|ack| ack.sequences);
    (result, reader.len())
}

#[test]
fn keeps_the_sequences_it_is_made_of() {
    assert_eq!(Acknowledge::new(vec![3, 1, 2]).sequences, vec![3, 1, 2]);
}

#[test]
fn writes_no_record_for_an_empty_list() {
    assert_eq!(written(&[], 0xc0), vec![0xc0, 0, 0]);
}

#[test]
fn writes_a_single_number() {
    assert_eq!(
        written(&[0x0001_0203], 0xa0),
        vec![0xa0, 0, 1, 1, 0x03, 0x02, 0x01]
    );
}

#[test]
fn writes_runs_as_ranges() {
    // 5..=7 and 9, given in another order.
    assert_eq!(
        written(&[9, 7, 5, 6], 0xc0),
        vec![0xc0, 0, 2, 0, 5, 0, 0, 7, 0, 0, 1, 9, 0, 0]
    );
}

#[test]
fn writes_a_repeated_number_as_two_records() {
    assert_eq!(
        written(&[5, 5, 6], 0xc0),
        vec![0xc0, 0, 2, 1, 5, 0, 0, 0, 5, 0, 0, 6, 0, 0]
    );
}

#[test]
fn writes_the_low_24_bits() {
    assert_eq!(written(&[0x0a0b_0c0d], 1), vec![1, 0, 1, 1, 0x0d, 0x0c, 0x0b]);
    assert_eq!(written(&[u32::MAX], 1), vec![1, 0, 1, 1, 0xff, 0xff, 0xff]);
}

#[test]
fn appends_to_what_the_writer_holds() {
    let mut out = vec![7, 8];
    Acknowledge::new(vec![1]).write(&mut out, 2);
    assert_eq!(out, vec![7, 8, 2, 0, 1, 1, 1, 0, 0]);
}

#[test]
fn tells_what_cannot_be_written() {
    assert!(!Acknowledge::new(vec![u32::MAX, 0, u32::MAX]).is_writable());
    assert!(Acknowledge::new(vec![u32::MAX, u32::MAX - 1]).is_writable());
    let spread: Vec<u32> = (0..65536).map(|i| i * 2).collect();
    assert!(!Acknowledge::new(spread.clone()).is_writable());
    assert!(Acknowledge::new(spread[1..].to_vec()).is_writable());
}

#[test]
fn reads_singles_and_ranges() {
    let bytes = [0, 2, 1, 0x03, 0x02, 0x01, 0, 5, 0, 0, 7, 0, 0, 0xee];
    assert_eq!(read(&bytes), (Ok(vec![0x0001_0203, 5, 6, 7]), 1));
}

#[test]
fn takes_any_marker_but_zero_for_a_single() {
    assert_eq!(read(&[0, 1, 0xff, 9, 0, 0]), (Ok(vec![9]), 0));
}

#[test]
fn reads_nothing_from_a_range_that_runs_backwards() {
    assert_eq!(
        read(&[0, 2, 0, 9, 0, 0, 8, 0, 0, 1, 4, 0, 0]),
        (Ok(vec![4]), 0)
    );
}

#[test]
fn counts_a_backward_range_as_one() {
    // 4096 numbers fill the packet: one more record is too many, even if it is
    // empty.
    let full = [0, 1, 0, 0, 0, 0, 0xff, 0x0f, 0];
    let (sequences, _) = read(&full);
    assert_eq!(sequences, Ok((0..4096).collect::<Vec<u32>>()));
    let mut over = full.to_vec();
    over[1] = 2;
    over.extend_from_slice(&[0, 9, 0, 0, 8, 0, 0]);
    assert_eq!(read(&over), (Err(AckError::TooManySequences), 0));
}

#[test]
fn refuses_too_many_records() {
    let count = (MAX_ACK_RECORDS + 1).to_be_bytes();
    assert_eq!(
        read(&[count[0], count[1], 1, 2, 3]),
        (Err(AckError::TooManyRecords), 3)
    );
}

#[test]
fn refuses_a_range_that_expands_too_far() {
    // 0..=4096 is one number more than allowed.
    assert_eq!(MAX_ACK_SEQUENCES, 4096);
    assert_eq!(
        read(&[0, 1, 0, 0, 0, 0, 0, 0x10, 0]),
        (Err(AckError::TooManySequences), 0)
    );
    assert_eq!(
        read(&[0, 1, 0, 0, 0, 0, 0xff, 0xff, 0xff]),
        (Err(AckError::TooManySequences), 0)
    );
}

#[test]
fn reports_the_end_of_the_input() {
    let bytes = [0, 2, 1, 3, 0, 0, 0, 5, 0, 0, 7, 0, 0];
    assert_eq!(read(&bytes).0, Ok(vec![3, 5, 6, 7]));
    for end in 0..bytes.len() {
        assert_eq!(read(&bytes[..end]).0, Err(AckError::UnexpectedEnd));
    }
}

#[test]
fn ignores_what_follows_a_packet() {
    let bytes = [0, 1, 1, 3, 0, 0, 0xaa, 0xbb];
    assert_eq!(read(&bytes), (Ok(vec![3]), 2));
    assert_eq!(read(&bytes[..6]), (Ok(vec![3]), 0));
}

#[test]
fn reads_back_what_was_written_in_order() {
    let sequences = vec![100, 3, 2, 1, 101, 0x00ff_ffff, 3, 50, 102];
    let bytes = written(&sequences, 0xc0);
    let mut sorted = sequences.clone();
    sorted.sort();
    assert_eq!(read(&bytes[1..]), (Ok(sorted), 0));
}

#[test]
fn reads_back_a_full_packet() {
    let sequences: Vec<u32> = (0..4096).map(|i| i * 3).collect();
    let bytes = written(&sequences, 0xc0);
    assert_eq!(&bytes[1..3], &[0x10, 0x00]);
    assert_eq!(read(&bytes[1..]), (Ok(sequences), 0));
}

#[test]
fn describes_packet_errors() {
    assert_eq!(
        AckError::TooManyRecords.message(),
        "Acknowledge packet range is too large."
    );
    assert_eq!(
        AckError::TooManySequences.message(),
        "Acknowledge packet expands to too many sequences."
    );
    assert_eq!(
        AckError::UnexpectedEnd.message(),
        "failed to fill whole buffer"
    );
}

#[test]
fn says_how_many_bytes_are_missing() {
    assert_eq!(Acknowledge::missing(&[]), 2);
    assert_eq!(Acknowledge::missing(&[0]), 1);
    assert_eq!(Acknowledge::missing(&[0, 0]), 0);
    // A record is four bytes long, or seven where it covers a range.
    assert_eq!(Acknowledge::missing(&[0, 1]), 4);
    assert_eq!(Acknowledge::missing(&[0, 1, 1]), 3);
    assert_eq!(Acknowledge::missing(&[0, 1, 0]), 6);
    assert_eq!(Acknowledge::missing(&[0, 1, 0, 5, 0, 0]), 3);
    assert_eq!(Acknowledge::missing(&[0, 1, 0, 5, 0, 0, 6, 0, 0]), 0);
    assert_eq!(Acknowledge::missing(&[0, 2, 1, 5, 0, 0]), 4);
    // What is refused needs no more.
    assert_eq!(Acknowledge::missing(&[0x10, 1]), 0);
    assert_eq!(Acknowledge::missing(&[0, 9, 0, 0, 0, 0, 0, 0x10, 0]), 0);
    assert_eq!(Acknowledge::missing(&[0, 9, 0, 0, 0, 0, 0xff, 0x0f, 0]), 4);
    assert_eq!(
        Acknowledge::missing(&[0, 9, 0, 0, 0, 0, 0xff, 0x0f, 0, 0, 2, 0, 0, 1, 0, 0]),
        0
    );
}

#[test]
fn takes_a_packet_piece_by_piece() {
    let bodies = [
        written(&[], 0)[1..].to_vec(),
        written(&[9, 7, 5, 6, 100], 0)[1..].to_vec(),
        written(&(0..3000).map(|n| n * 2).collect::<Vec<u32>>(), 0)[1..].to_vec(),
    ];
    for body in bodies {
        let mut input = body.clone();
        input.extend([0xee; 10]);
        let mut packet: Vec<u8> = Vec::new();
        loop {
            let missing = Acknowledge::missing(&packet);
            if missing == 0 {
                break;
            }
            for fewer in 0..missing {
                let part = &input[..packet.len() + fewer];
                assert_eq!(read(part).0, Err(AckError::UnexpectedEnd));
            }
            let len = packet.len();
            packet.extend_from_slice(&input[len..len + missing]);
        }
        assert_eq!(packet, body);
        let (result, left) = read(&packet);
        assert!(result.is_ok());
        assert_eq!(left, 0);
    }
}
