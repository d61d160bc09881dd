use cs581_project::lz77::{find_match, lz77_compress, lz77_decompress, Lz77Error};
use cs581_project::ring::RingBuffer;

fn round_trip(data: &[u8], window: usize) {
    let input: Vec<u8> = data.to_vec();
    let packed = lz77_compress(&input, window);
    let unpacked = lz77_decompress(&packed, window).unwrap();
    assert_eq!(unpacked, input);
}

#[test]
fn scenario_single_literal_and_match() {
    // Ten 'a' bytes: one literal seeds the window, one match token of
    // length 9 at distance 1 replays the rest.
    let input: Vec<u8> = b"aaaaaaaaaa".to_vec();
    let packed = lz77_compress(&input, 16);
    assert_eq!(packed, vec![b'a', 0xff, 0x00, 0x09, 0x00, 0x01]);
    let unpacked = lz77_decompress(&packed, 16).unwrap();
    assert_eq!(unpacked, input);
}

#[test]
fn empty_input_gives_empty_stream() {
    let input: Vec<u8> = Vec::new();
    let packed = lz77_compress(&input, 0xffff);
    assert_eq!(packed, Vec::<u8>::new());
    let unpacked = lz77_decompress(&packed, 0xffff).unwrap();
    assert_eq!(unpacked, Vec::<u8>::new());
}

#[test]
fn sentinel_literals_are_doubled() {
    // A short run of sentinel bytes stays below the match threshold and is
    // emitted as doubled literals, with no match token.
    let input: Vec<u8> = vec![0xff; 4];
    let packed = lz77_compress(&input, 16);
    assert_eq!(packed, vec![0xff; 8]);
    let unpacked = lz77_decompress(&packed, 16).unwrap();
    assert_eq!(unpacked, input);
}

#[test]
fn sentinel_byte_survives_round_trip() {
    round_trip(&[0x00, 0xff, 0x41, 0xff, 0xff, 0x42], 32);
}

#[test]
fn long_sentinel_run_round_trips() {
    // Above the threshold the sentinel run is replaced by a match token.
    let input: Vec<u8> = vec![0xff; 40];
    let packed = lz77_compress(&input, 64);
    assert!(packed.len() < input.len());
    let unpacked = lz77_decompress(&packed, 64).unwrap();
    assert_eq!(unpacked, input);
}

#[test]
fn round_trips_at_various_windows() {
    let mut data: Vec<u8> = Vec::new();
    let mut k: usize = 0;
    while k < 600 {
        data.push((k % 13) as u8);
        data.push((k % 7) as u8);
        k += 1;
    }
    round_trip(&data, 1);
    round_trip(&data, 2);
    round_trip(&data, 17);
    round_trip(&data, 255);
    round_trip(&data, 0xffff);
}

#[test]
fn round_trips_plain_text() {
    let text = b"the quick brown fox jumps over the lazy dog; \
                 the quick brown fox jumps over the lazy dog again and again";
    round_trip(text, 0xffff);
    round_trip(text, 8);
}

#[test]
fn overlapping_copy_replays_emitted_bytes() {
    // Distance 1 with a long run forces a self-overlapping copy.
    let mut input: Vec<u8> = vec![b'x'; 300];
    input.push(b'y');
    let packed = lz77_compress(&input, 0xffff);
    let unpacked = lz77_decompress(&packed, 0xffff).unwrap();
    assert_eq!(unpacked, input);
}

#[test]
fn decompress_rejects_distance_past_output() {
    // A match token whose distance points before the start of the output.
    let stream: Vec<u8> = vec![0xff, 0x00, 0x09, 0x00, 0x01];
    assert_eq!(lz77_decompress(&stream, 16), Err(Lz77Error::Corrupt));
}

#[test]
fn decompress_rejects_truncated_token() {
    let stream: Vec<u8> = vec![b'a', 0xff, 0x00];
    assert_eq!(lz77_decompress(&stream, 16), Err(Lz77Error::Corrupt));
}

#[test]
fn decompress_rejects_short_match_length() {
    let stream: Vec<u8> = vec![b'a', b'a', b'a', b'a', b'a', b'a', 0xff, 0x00, 0x04, 0x00, 0x01];
    assert_eq!(lz77_decompress(&stream, 16), Err(Lz77Error::Corrupt));
}

#[test]
fn decompress_rejects_distance_past_window() {
    // Six literals, then a match reaching back 6 with a window of only 4.
    let stream: Vec<u8> = vec![b'a', b'b', b'c', b'd', b'e', b'f', 0xff, 0x00, 0x05, 0x00, 0x06];
    assert_eq!(lz77_decompress(&stream, 4), Err(Lz77Error::Corrupt));
}

#[test]
fn find_match_reports_repeat() {
    let mut ring = RingBuffer::new(32);
    ring.wrapping_write(b"abab");
    let (d, l) = find_match(&ring, 2);
    assert_eq!((d, l), (2, 2));
}

#[test]
fn find_match_reports_nothing_without_repeat() {
    let mut ring = RingBuffer::new(32);
    ring.wrapping_write(b"abcd");
    let (d, l) = find_match(&ring, 2);
    assert_eq!((d, l), (0, 0));
}

#[test]
fn find_match_can_run_into_lookahead() {
    // The match starts in the seen region and extends across the boundary.
    let mut ring = RingBuffer::new(64);
    ring.wrapping_write(b"zaaaaaaaa");
    let (d, l) = find_match(&ring, 2);
    assert_eq!(d, 1);
    assert_eq!(l, 7);
}
