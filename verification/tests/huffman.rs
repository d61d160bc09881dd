use cs581_project::huffman::{HuffmanError, HuffmanTree};

fn round_trip(data: &[u8]) {
    let message: Vec<u8> = data.to_vec();
    let tree = HuffmanTree::new(&message);
    let encoded = tree.encode(&message).unwrap();
    let decoded = tree.decode(&encoded).unwrap();
    assert_eq!(decoded, message);
}

fn header_of(encoded: &[u8]) -> u64 {
    let mut n: u64 = 0;
    let mut k: usize = 8;
    while k > 0 {
        k -= 1;
        n = n * 256 + encoded[k] as u64;
    }
    n
}

#[test]
fn frequencies_count_every_byte() {
    let message: Vec<u8> = b"abracadabra".to_vec();
    let tree = HuffmanTree::new(&message);
    let expected: Vec<(u8, u64)> =
        vec![(b'a', 5), (b'b', 2), (b'c', 1), (b'd', 1), (b'r', 2)];
    assert_eq!(tree.frequencies(), &expected);
}

#[test]
fn round_trips_text() {
    round_trip(b"abracadabra");
    round_trip(b"the quick brown fox jumps over the lazy dog");
}

#[test]
fn round_trips_all_byte_values() {
    let mut message: Vec<u8> = Vec::new();
    let mut k: usize = 0;
    while k < 1024 {
        message.push((k % 256) as u8);
        message.push((k % 3) as u8);
        k += 1;
    }
    round_trip(&message);
}

#[test]
fn scenario_single_distinct_byte() {
    // A one-leaf tree: the single byte value gets the one-bit code 0, so
    // five repetitions encode to a five-bit payload of zeros.
    let message: Vec<u8> = vec![b'x'; 5];
    let tree = HuffmanTree::new(&message);
    assert_eq!(tree.frequencies(), &vec![(b'x', 5)]);
    let encoded = tree.encode(&message).unwrap();
    assert_eq!(encoded, vec![5, 0, 0, 0, 0, 0, 0, 0, 0]);
    let decoded = tree.decode(&encoded).unwrap();
    assert_eq!(decoded, message);
}

#[test]
fn empty_input_gives_empty_payload() {
    let message: Vec<u8> = Vec::new();
    let tree = HuffmanTree::new(&message);
    assert_eq!(tree.frequencies(), &Vec::<(u8, u64)>::new());
    let encoded = tree.encode(&message).unwrap();
    // The header says zero bits and no payload follows.
    assert_eq!(encoded, vec![0, 0, 0, 0, 0, 0, 0, 0]);
    let decoded = tree.decode(&encoded).unwrap();
    assert_eq!(decoded, Vec::<u8>::new());
}

#[test]
fn header_holds_sum_of_code_lengths() {
    // Two symbols: each gets a one-bit code, so the header counts one bit
    // per input byte.
    let message: Vec<u8> = b"aab".to_vec();
    let tree = HuffmanTree::new(&message);
    let encoded = tree.encode(&message).unwrap();
    assert_eq!(header_of(&encoded), 3);

    // Frequencies 2, 2, 1: the rarest symbol and one other end at depth
    // two, the remaining one at depth one, whichever way ties break.
    let message: Vec<u8> = b"aabbc".to_vec();
    let tree = HuffmanTree::new(&message);
    let encoded = tree.encode(&message).unwrap();
    assert_eq!(header_of(&encoded), 8);
}

#[test]
fn encode_rejects_byte_outside_table() {
    let sample: Vec<u8> = b"aaa".to_vec();
    let tree = HuffmanTree::new(&sample);
    let message: Vec<u8> = b"ab".to_vec();
    assert_eq!(tree.encode(&message), Err(HuffmanError::MissingCode));
}

#[test]
fn decode_rejects_short_header() {
    let tree = HuffmanTree::new(&b"aab".to_vec());
    let encoded: Vec<u8> = vec![1, 0, 0];
    assert_eq!(tree.decode(&encoded), Err(HuffmanError::CorruptEncoding));
}

#[test]
fn decode_rejects_bit_count_past_payload() {
    let tree = HuffmanTree::new(&b"aab".to_vec());
    // The header claims nine bits but only one payload byte follows.
    let encoded: Vec<u8> = vec![9, 0, 0, 0, 0, 0, 0, 0, 0];
    assert_eq!(tree.decode(&encoded), Err(HuffmanError::CorruptEncoding));
}

#[test]
fn decode_rejects_bad_bit_at_single_leaf() {
    // Against a one-leaf tree, a 1 bit selects a child that does not exist.
    let message: Vec<u8> = vec![b'x'; 3];
    let tree = HuffmanTree::new(&message);
    let encoded: Vec<u8> = vec![3, 0, 0, 0, 0, 0, 0, 0, 0b101];
    assert_eq!(tree.decode(&encoded), Err(HuffmanError::CorruptEncoding));
}

#[test]
fn trailing_padding_bits_are_ignored() {
    let message: Vec<u8> = vec![b'x'; 3];
    let tree = HuffmanTree::new(&message);
    // Three meaningful zero bits, then garbage padding in the same byte.
    let encoded: Vec<u8> = vec![3, 0, 0, 0, 0, 0, 0, 0, 0b1111_1000];
    assert_eq!(tree.decode(&encoded).unwrap(), message);
}

#[test]
fn tree_rows_list_every_node() {
    let message: Vec<u8> = b"aab".to_vec();
    let tree = HuffmanTree::new(&message);
    let rows = tree.rows();
    // Two leaves and one internal node.
    assert_eq!(rows.len(), 3);
    assert_eq!(rows[0], (3, None, 0));
    let mut leaves: Vec<(u64, Option<u8>, u64)> = rows[1..].to_vec();
    leaves.sort();
    assert_eq!(leaves, vec![(1, Some(b'b'), 1), (2, Some(b'a'), 1)]);
}
