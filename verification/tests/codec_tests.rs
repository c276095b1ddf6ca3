use life_core::board::Board;
use life_core::codec::{decode, encode, FormatError};
use life_core::rule::Rule;

fn header(w: u64, h: u64, rc: u64) -> Vec<u8> {
    let mut out = Vec::new();
    out.extend_from_slice(&w.to_le_bytes());
    out.extend_from_slice(&h.to_le_bytes());
    out.extend_from_slice(&rc.to_le_bytes());
    out
}

fn boards_equal(a: &Board, b: &Board) -> bool {
    a.width == b.width && a.height == b.height && a.tiles == b.tiles && a.run_count == b.run_count
}

#[test]
fn crop_single_cell_yields_one_by_one() {
    let mut b = Board::new(10, 10);
    b.set(5, 5, true);
    b.crop();
    assert_eq!(b.wh(), (1, 1));
    assert_eq!(b.get(0, 0), Some(true));
}

#[test]
fn crop_trims_all_four_sides() {
    let mut b = Board::new(7, 6);
    b.set(2, 1, true);
    b.set(4, 3, true);
    b.crop();
    assert_eq!(b.wh(), (3, 3));
    assert_eq!(b.get(0, 0), Some(true));
    assert_eq!(b.get(2, 2), Some(true));
    assert_eq!(b.get(1, 1), Some(false));
}

#[test]
fn crop_of_all_dead_board_is_zero_by_zero() {
    let mut b = Board::new(4, 4);
    b.crop();
    assert_eq!(b.wh(), (0, 0));
}

#[test]
fn crop_keeps_the_generation_counter() {
    let rule = Rule::parse("23/3").unwrap();
    let mut b = Board::new(4, 4);
    b.set(1, 1, true);
    b.set(2, 1, true);
    b.set(1, 2, true);
    b.set(2, 2, true);
    b.advance(&rule);
    b.advance(&rule);
    b.crop();
    assert_eq!(b.run_count, 2);
}

#[test]
fn encode_emits_header_and_run_pairs() {
    let mut b = Board::new(10, 10);
    b.set(5, 5, true);
    let bytes = encode(&b);
    let mut expected = header(1, 1, 0);
    expected.extend_from_slice(&[1, 1]);
    assert_eq!(bytes, expected);
}

#[test]
fn encode_coalesces_equal_runs() {
    let mut b = Board::new(2, 2);
    for y in 0..2 {
        for x in 0..2 {
            b.set(x, y, true);
        }
    }
    let bytes = encode(&b);
    let mut expected = header(2, 2, 0);
    expected.extend_from_slice(&[4, 1]);
    assert_eq!(bytes, expected);
}

#[test]
fn encode_splits_runs_longer_than_255() {
    let mut b = Board::new(300, 1);
    for x in 0..300 {
        b.set(x, 0, true);
    }
    let bytes = encode(&b);
    let mut expected = header(300, 1, 0);
    expected.extend_from_slice(&[255, 1, 45, 1]);
    assert_eq!(bytes, expected);
}

#[test]
fn decode_encode_round_trips_all_dead() {
    let b = Board::new(5, 5);
    let out = decode(&encode(&b)).unwrap();
    let mut cropped = b;
    cropped.crop();
    assert!(boards_equal(&out, &cropped));
    assert_eq!(out.wh(), (0, 0));
}

#[test]
fn decode_encode_round_trips_all_live() {
    let mut b = Board::new(4, 3);
    for y in 0..3 {
        for x in 0..4 {
            b.set(x, y, true);
        }
    }
    let out = decode(&encode(&b)).unwrap();
    let mut cropped = b;
    cropped.crop();
    assert!(boards_equal(&out, &cropped));
    assert_eq!(out.wh(), (4, 3));
}

#[test]
fn decode_encode_round_trips_sparse_boards() {
    let sizes = [(1usize, 1usize), (3, 7), (13, 5), (40, 40)];
    for (i, (w, h)) in sizes.iter().enumerate() {
        let mut b = Board::new(*w, *h);
        // a deterministic sparse scatter
        let mut k = 7 * (i + 3);
        while k < w * h {
            b.set(k % w, k / w, true);
            k = k * 3 / 2 + 1;
        }
        let out = decode(&encode(&b)).unwrap();
        let mut cropped = b;
        cropped.crop();
        assert!(boards_equal(&out, &cropped));
    }
}

#[test]
fn decode_encode_round_trips_run_count() {
    let rule = Rule::parse("23/3").unwrap();
    let mut b = Board::new(6, 6);
    b.set(2, 2, true);
    b.set(3, 2, true);
    b.set(2, 3, true);
    b.set(3, 3, true);
    for _ in 0..9 {
        b.advance(&rule);
    }
    let out = decode(&encode(&b)).unwrap();
    assert_eq!(out.run_count, 9);
}

#[test]
fn decode_rejects_truncated_header() {
    assert_eq!(decode(&[0u8; 23]).unwrap_err(), FormatError::TruncatedHeader);
    assert_eq!(decode(&[]).unwrap_err(), FormatError::TruncatedHeader);
}

#[test]
fn decode_rejects_incomplete_pair() {
    let mut bytes = header(1, 1, 0);
    bytes.push(1);
    assert_eq!(decode(&bytes).unwrap_err(), FormatError::BadRunPair);
}

#[test]
fn decode_rejects_bad_value_byte() {
    let mut bytes = header(1, 1, 0);
    bytes.extend_from_slice(&[1, 5]);
    assert_eq!(decode(&bytes).unwrap_err(), FormatError::BadRunPair);
}

#[test]
fn decode_rejects_length_mismatch() {
    let mut bytes = header(2, 2, 0);
    bytes.extend_from_slice(&[1, 1]);
    assert_eq!(decode(&bytes).unwrap_err(), FormatError::LengthMismatch);

    let mut bytes = header(1, 1, 0);
    bytes.extend_from_slice(&[2, 1]);
    assert_eq!(decode(&bytes).unwrap_err(), FormatError::LengthMismatch);
}

#[test]
fn decode_accepts_a_hand_written_stream() {
    let mut bytes = header(2, 2, 7);
    bytes.extend_from_slice(&[1, 0, 2, 1, 1, 0]);
    let b = decode(&bytes).unwrap();
    assert_eq!(b.wh(), (2, 2));
    assert_eq!(b.run_count, 7);
    assert_eq!(b.get(0, 0), Some(false));
    assert_eq!(b.get(1, 0), Some(true));
    assert_eq!(b.get(0, 1), Some(true));
    assert_eq!(b.get(1, 1), Some(false));
}
