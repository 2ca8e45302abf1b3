use huffcode::bits::{BitReader, BitWriter};
use huffcode::huffman::{
    build_dictionary, compress, decompress, read_dictionary, write_compressed, Code, HuffmanError,
    NodeData, Tree,
};
use huffcode::huffman_decoder::HuffmanDecoder;
use huffcode::merge_sort::{merge, merge_sort_iterative, merge_sort_recursive, Bounds};

fn simple_impl(func: fn(&mut Vec<i32>) -> &mut Vec<i32>) {
    let mut a: Vec<i32> = vec![4, 2, 8, 9, 3, 1, 0, 5, 6, 7];
    let b: Vec<i32> = (0..10).collect();
    assert_eq!(a.len(), b.len());
    let a = func(&mut a);
    assert_eq!(b, *a);

    let mut a: Vec<i32> = vec![];
    let a = func(&mut a);
    assert!(a.is_empty());

    let mut a: Vec<i32> = vec![1];
    let a = func(&mut a);
    assert_eq!(1, a.len());
}

#[test]
fn merge_sort_simple() {
    simple_impl(merge_sort_iterative);
    simple_impl(merge_sort_recursive);
}

#[test]
fn merge_even() {
    let a = vec![6, 7, 1, 2];
    let b = vec![1, 2, 6, 7];
    let n = a.len();
    assert_eq!(b, merge(&a, &Bounds { start: 0, end: n }));
}

#[test]
fn merge_odd() {
    let a = vec![3, 1, 2];
    let b = vec![1, 2, 3];
    let n = a.len();
    assert_eq!(b, merge(&a, &Bounds { start: 0, end: n }));
}

fn compress_to_bytes(text: &[u8]) -> (Vec<u8>, usize) {
    let mut input = BitReader::from_bytes(text.to_vec());
    let mut output = BitWriter::new();
    let compressed_length = compress(&mut input, &mut output).unwrap();
    (output.to_bytes(), compressed_length)
}

fn simple_assert(text: &str) {
    let input_slice = text.as_bytes();
    let (bytes, compressed_length) = compress_to_bytes(input_slice);

    let mut compressed = BitReader::from_bytes(bytes);
    let mut decompressed: Vec<u8> = vec![];
    let decompressed_length = decompress(&mut compressed, &mut decompressed).unwrap();

    assert!(compressed_length < decompressed_length);
    assert_eq!(decompressed_length, input_slice.len() * 8);
    assert_eq!(input_slice, &decompressed[..]);
}

#[test]
fn huffman_simple() {
    simple_assert("mississippi river");
}

#[test]
fn compute_leaves() {
    let text = "mississippi river";
    let mut input = BitReader::from_bytes(text.as_bytes().to_vec());

    let expected = vec![(' ', 1), ('e', 1), ('i', 5), ('m', 1), ('p', 2), ('r', 2), ('s', 4),
                        ('v', 1)];
    let expected = expected
        .into_iter()
        .map(|(ch, weight)| NodeData { chars: vec![ch as u8], weight })
        .collect::<Vec<NodeData>>();

    let mut result: Vec<NodeData> = huffcode::huffman::compute_leaves(&mut input)
        .iter()
        .map(|tree| tree.data().clone())
        .collect::<Vec<NodeData>>();
    result.sort_by_key(|node| node.chars[0]);

    assert_eq!(expected, result);
}

fn assert_weight(expect: usize, tree: &Tree) {
    assert_eq!(expect, tree.data().weight);
}

#[test]
fn build_tree() {
    let text = "mississippi river";
    let input_slice = text.as_bytes();
    let mut input = BitReader::from_bytes(input_slice.to_vec());
    let tree = huffcode::huffman::build_tree(&mut input);

    let mut all_chars: Vec<u8> = Vec::new();
    for &i in input_slice {
        if !all_chars.contains(&i) {
            all_chars.push(i);
        }
    }
    all_chars.sort();
    let mut root_chars = tree.data().chars.clone();
    root_chars.sort();
    assert_eq!(all_chars, root_chars);

    assert_weight(17, &tree);
    assert_weight(6, tree.left());
    assert_weight(2, tree.left().left());
    assert_weight(1, tree.left().left().left());
    assert!(tree.left().left().left().is_leaf());
    assert_weight(1, tree.left().left().right());
    assert!(tree.left().left().right().is_leaf());
    assert_weight(4, tree.left().right());
    assert_weight(2, tree.left().right().left());
    assert_weight(1, tree.left().right().left().left());
    assert!(tree.left().right().left().left().is_leaf());
    assert_weight(1, tree.left().right().left().right());
    assert!(tree.left().right().left().right().is_leaf());
    assert_weight(2, tree.left().right().right());
    assert_weight(11, tree.right());
    assert_weight(6, tree.right().left());
    assert_weight(2, tree.right().left().left());
    assert!(tree.right().left().left().is_leaf());
    assert_weight(4, tree.right().left().right());
    assert!(tree.right().left().right().is_leaf());
    assert_weight(5, tree.right().right());
}

#[test]
fn round_trip_empty() {
    let (bytes, compressed_length) = compress_to_bytes(b"");
    assert_eq!(compressed_length, 0);
    // Header for one trivial entry, zero payload bits.
    assert_eq!(bytes.len(), 4);
    assert_eq!(bytes[0], 0);

    let mut compressed = BitReader::from_bytes(bytes);
    let mut decompressed: Vec<u8> = vec![];
    let n = decompress(&mut compressed, &mut decompressed).unwrap();
    assert_eq!(n, 0);
    assert!(decompressed.is_empty());
}

#[test]
fn round_trip_one_distinct() {
    let (bytes, compressed_length) = compress_to_bytes(b"aaa");
    assert_eq!(compressed_length, 3);
    // The dictionary is 4 bytes; cut the reader at the exact bit length so
    // the zero padding of the last byte is not taken for more codes.
    let mut compressed = BitReader::from_bytes_limited(bytes, 4 * 8 + 3);
    let mut decompressed: Vec<u8> = vec![];
    let n = decompress(&mut compressed, &mut decompressed).unwrap();
    assert_eq!(n, 24);
    assert_eq!(&decompressed[..], b"aaa");
}

#[test]
fn round_trip_two_distinct() {
    let (bytes, compressed_length) = compress_to_bytes(b"abab");
    assert_eq!(compressed_length, 4);
    // Header: 1 count byte and two 3-byte entries, then 4 payload bits.
    let mut compressed = BitReader::from_bytes_limited(bytes, 7 * 8 + 4);
    let mut decompressed: Vec<u8> = vec![];
    let n = decompress(&mut compressed, &mut decompressed).unwrap();
    assert_eq!(n, 32);
    assert_eq!(&decompressed[..], b"abab");
}

#[test]
fn round_trip_all_bytes() {
    let mut all: Vec<u8> = Vec::new();
    for b in 0..=255u8 {
        all.push(b);
    }
    let (bytes, compressed_length) = compress_to_bytes(&all);
    // 256 equal weights give a complete tree of depth eight.
    assert_eq!(compressed_length, 256 * 8);
    let mut compressed = BitReader::from_bytes(bytes);
    let mut decompressed: Vec<u8> = vec![];
    let n = decompress(&mut compressed, &mut decompressed).unwrap();
    assert_eq!(n, 256 * 8);
    assert_eq!(decompressed, all);
}

#[test]
fn code_too_long_fails() {
    // Eleven distinct byte values whose counts double: the level merge
    // absorbs each next value into the last parent, and the lightest
    // value ends up deeper than eight levels.
    let counts: [usize; 11] = [1, 1, 1, 2, 4, 8, 16, 32, 64, 128, 256];
    let mut data: Vec<u8> = Vec::new();
    for (i, &c) in counts.iter().enumerate() {
        for _ in 0..c {
            data.push(i as u8);
        }
    }
    let mut input = BitReader::from_bytes(data);
    let mut output = BitWriter::new();
    assert_eq!(compress(&mut input, &mut output), Err(HuffmanError::CodeTooLong));
}

#[test]
fn dictionary_codes_prefix_free() {
    let text = b"mississippi river";
    let mut input = BitReader::from_bytes(text.to_vec());
    let tree = huffcode::huffman::build_tree(&mut input);
    let dict = build_dictionary(&tree).unwrap();
    let entries = &dict.entries;
    assert!(entries.len() <= 256);
    for i in 0..entries.len() {
        let (_, ci) = entries[i];
        assert!(1 <= ci.length && ci.length <= 8);
        for j in 0..entries.len() {
            if i == j {
                continue;
            }
            let (_, cj) = entries[j];
            // No two distinct byte values share a code, and no code is a
            // bit-prefix of another.
            let short = if ci.length <= cj.length { ci } else { cj };
            let long = if ci.length <= cj.length { cj } else { ci };
            let mask: u8 = if short.length == 8 { 0xff } else { (1u8 << short.length) - 1 };
            assert!((short.data & mask) != (long.data & mask));
        }
    }
}

#[test]
fn truncated_header_is_invalid_input() {
    // A count byte promising six entries, but no entry bytes follow.
    let mut compressed = BitReader::from_bytes(vec![5u8]);
    let mut decompressed: Vec<u8> = vec![];
    assert_eq!(
        decompress(&mut compressed, &mut decompressed),
        Err(HuffmanError::InvalidInput)
    );
    assert!(decompressed.is_empty());
}

#[test]
fn two_reads_same_dictionary() {
    let (bytes, _) = compress_to_bytes(b"mississippi river");
    let mut r1 = BitReader::from_bytes(bytes.clone());
    let mut r2 = BitReader::from_bytes(bytes);
    let d1 = read_dictionary(&mut r1).unwrap();
    let d2 = read_dictionary(&mut r2).unwrap();
    assert_eq!(d1.entries, d2.entries);
}

fn build_random_access_stream(text: &[u8]) -> (Vec<u8>, Vec<(u8, Code)>, u64) {
    let mut input = BitReader::from_bytes(text.to_vec());
    let tree = huffcode::huffman::build_tree(&mut input);
    let dict = build_dictionary(&tree).unwrap();
    let mut output = BitWriter::new();
    output.write_u16(dict.entries.len() as u16);
    for k in 0..dict.entries.len() {
        let (ch, code) = dict.entries[k];
        output.write_byte(code.length);
        output.write_byte(code.data);
        output.write_byte(ch);
    }
    let header_bits = output.len_bits() as u64;
    let mut input = BitReader::from_bytes(text.to_vec());
    let _ = write_compressed(&mut input, &mut output, &dict);
    (output.to_bytes(), dict.entries.clone(), header_bits)
}

fn code_of(entries: &[(u8, Code)], b: u8) -> Code {
    for &(ch, code) in entries {
        if ch == b {
            return code;
        }
    }
    panic!("byte not in dictionary");
}

#[test]
fn random_access_matches_full_decode() {
    let text = b"mississippi river";
    let (bytes, entries, header_bits) = build_random_access_stream(text);

    let mut decoder = HuffmanDecoder::new(bytes).unwrap();
    // Whole stream from the payload start.
    let mut whole: Vec<u8> = vec![];
    let n = decoder
        .decode(&mut whole, header_bits, (text.len() * 8) as u64)
        .unwrap();
    assert_eq!(n, (text.len() * 8) as u64);
    assert_eq!(&whole[..], text);

    // Every byte-aligned window equals the matching slice of the input.
    for start in 0..text.len() {
        let mut offset = header_bits;
        for &b in &text[..start] {
            offset += code_of(&entries, b).length as u64;
        }
        for end in start..=text.len() {
            let mut window: Vec<u8> = vec![];
            let want_bits = ((end - start) * 8) as u64;
            let n = decoder.decode(&mut window, offset, want_bits).unwrap();
            assert_eq!(n, want_bits);
            assert_eq!(&window[..], &text[start..end]);
        }
    }
}

#[test]
fn random_access_zero_length_reads_nothing() {
    let (bytes, _, header_bits) = build_random_access_stream(b"mississippi river");
    let mut decoder = HuffmanDecoder::new(bytes).unwrap();
    let mut out: Vec<u8> = vec![];
    assert_eq!(decoder.decode(&mut out, header_bits, 0), Ok(0));
    assert!(out.is_empty());
}

#[test]
fn random_access_truncated_window() {
    let text = b"mississippi river";
    let (bytes, _, header_bits) = build_random_access_stream(text);
    let mut decoder = HuffmanDecoder::new(bytes).unwrap();
    let mut out: Vec<u8> = vec![];
    // Ask for more bytes than the payload holds.
    let r = decoder.decode(&mut out, header_bits, (text.len() * 8 + 800) as u64);
    assert_eq!(r, Err(HuffmanError::Truncated));
}

#[test]
fn decoder_rejects_truncated_header() {
    // A two-byte count promising three entries, with only one present.
    let mut w = BitWriter::new();
    w.write_u16(3);
    w.write_byte(2);
    w.write_byte(1);
    w.write_byte(65);
    let r = HuffmanDecoder::new(w.to_bytes());
    assert!(matches!(r, Err(HuffmanError::InvalidInput)));
}

#[test]
fn duplicate_code_later_record_wins() {
    // Two header records carry the same one-bit code; the later record's
    // byte value must be decoded, as a rebuilt map would keep it.
    let mut w = BitWriter::new();
    w.write_u16(2);
    w.write_byte(1); // first record: code (1, 0) -> 'A'
    w.write_byte(0);
    w.write_byte(65);
    w.write_byte(1); // second record: same code -> 'B'
    w.write_byte(0);
    w.write_byte(66);
    w.write_bit(false); // one payload bit: the code 0
    let header_bits = 8 * 8;
    let mut decoder = HuffmanDecoder::new(w.to_bytes()).unwrap();
    let mut out: Vec<u8> = vec![];
    let n = decoder.decode(&mut out, header_bits, 8).unwrap();
    assert_eq!(n, 8);
    assert_eq!(&out[..], b"B");
}

#[test]
fn truncated_window_keeps_decoded_prefix() {
    let text = b"mississippi river";
    let (bytes, _, header_bits) = build_random_access_stream(text);
    let mut decoder = HuffmanDecoder::new(bytes).unwrap();
    let mut out: Vec<u8> = vec![];
    // Asking for more bytes than the payload holds fails, but everything
    // decodable before the cut is already in the output.
    let r = decoder.decode(&mut out, header_bits, (text.len() * 8 + 800) as u64);
    assert_eq!(r, Err(HuffmanError::Truncated));
    assert_eq!(&out[..text.len()], text);
}
