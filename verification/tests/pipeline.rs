use cs581_project::huffman::HuffmanTree;
use cs581_project::lz77::{lz77_compress, lz77_decompress};

#[test]
fn deflate_style_pipeline_round_trips() {
    // LZ77 first, Huffman second, then back: the composition the two codecs
    // are written for.
    let mut original: Vec<u8> = Vec::new();
    let mut k: usize = 0;
    while k < 2000 {
        original.extend_from_slice(b"a ring buffer backs the window; ");
        original.push((k % 251) as u8);
        k += 37;
    }

    let window: usize = 0xffff;
    let lz = lz77_compress(&original, window);
    let tree = HuffmanTree::new(&lz);
    let packed = tree.encode(&lz).unwrap();

    let unpacked = tree.decode(&packed).unwrap();
    assert_eq!(unpacked, lz);
    let restored = lz77_decompress(&unpacked, window).unwrap();
    assert_eq!(restored, original);
}

#[test]
fn pipeline_handles_empty_input() {
    let original: Vec<u8> = Vec::new();
    let lz = lz77_compress(&original, 0xffff);
    let tree = HuffmanTree::new(&lz);
    let packed = tree.encode(&lz).unwrap();
    let unpacked = tree.decode(&packed).unwrap();
    let restored = lz77_decompress(&unpacked, 0xffff).unwrap();
    assert_eq!(restored, original);
}
