use build_your_own::encoder::{
    encode, huffman_frequencies, huffman_prefix_code_table, huffman_tree, write_huffman_file,
};
use build_your_own::error::HuffmanError;
use build_your_own::tree::HuffmanNode;

#[test]
fn find_frequencies() {
    let input: &[u8] = b"test";

    let frequencies = huffman_frequencies(input);

    assert_eq!(frequencies[b't' as usize], 2);
    assert_eq!(frequencies[b'e' as usize], 1);
    assert_eq!(frequencies[b's' as usize], 1);
}

#[test]
fn frequencies_of_absent_bytes_are_zero() {
    let frequencies = huffman_frequencies(b"test");
    assert_eq!(frequencies.len(), 256);
    assert_eq!(frequencies.iter().sum::<usize>(), 4);
    assert_eq!(frequencies[b'x' as usize], 0);
    assert_eq!(frequencies[0], 0);
    assert!(huffman_frequencies(b"").iter().all(|&f| f == 0));
}

#[test]
fn frequencies_to_tree_to_prefix_code_table() {
    let input: &[u8] = b"testts";

    let frequencies = huffman_frequencies(input);
    let root = huffman_tree(frequencies).expect("a tree");
    let table = huffman_prefix_code_table(&root).expect("codes that fit");

    let t_prefix = table.get(&b't');
    let e_prefix = table.get(&b'e');
    let s_prefix = table.get(&b's');

    assert_eq!(t_prefix.data, 0b00000000000000000000000000000000);
    assert_eq!(e_prefix.data, 0b10000000000000000000000000000000);
    assert_eq!(s_prefix.data, 0b11000000000000000000000000000000);
}

fn code_bits(data: u32, len: u8) -> Vec<bool> {
    (0..len).map(|i| data & (0x8000_0000 >> i) != 0).collect()
}

#[test]
fn codes_of_testts_are_prefix_free() {
    let root = huffman_tree(huffman_frequencies(b"testts")).expect("a tree");
    let table = huffman_prefix_code_table(&root).expect("codes that fit");
    let codes: Vec<Vec<bool>> = [b't', b'e', b's']
        .iter()
        .map(|b| {
            let c = table.get(b);
            code_bits(c.data, c.amount_of_bits)
        })
        .collect();
    assert_eq!(codes[0], vec![false]);
    assert_eq!(codes[1], vec![true, false]);
    assert_eq!(codes[2], vec![true, true]);
    for i in 0..codes.len() {
        for j in 0..codes.len() {
            if i != j {
                assert!(!codes[j].starts_with(&codes[i]));
            }
        }
    }
    assert_eq!(table.get(&b'x').amount_of_bits, 0);
}

#[test]
fn tree_of_nothing_is_none() {
    assert!(huffman_tree(vec![0; 256]).is_none());
}

#[test]
fn single_symbol_gets_one_bit_code() {
    let root = huffman_tree(huffman_frequencies(b"aaaa")).expect("a tree");
    assert!(matches!(root, HuffmanNode::Leaf(b'a')));
    let table = huffman_prefix_code_table(&root).expect("codes that fit");
    assert_eq!(table.get(&b'a').amount_of_bits, 1);
    assert_eq!(table.get(&b'a').data, 0);
}

#[test]
fn stream_layout_of_two_symbols() {
    // "ab": leaves a and b under one node; tree bits 0 1 01100001 1 01100010,
    // then the codes 0 and 1.
    let root = huffman_tree(huffman_frequencies(b"ab")).expect("a tree");
    let table = huffman_prefix_code_table(&root).expect("codes that fit");
    let stream = write_huffman_file(b"ab", &table, &root);
    assert_eq!(stream, vec![0b0101_1000, 0b0110_1100, 0b0100_1000, 0x04]);
    assert_eq!(encode(b"ab"), Ok(stream));
}

#[test]
fn empty_input_encodes_to_nothing() {
    assert_eq!(encode(b""), Ok(vec![]));
}

#[test]
fn codes_longer_than_thirty_two_bits_are_refused() {
    // Fibonacci frequencies over 34 byte values give a tree of height 33.
    let mut input = Vec::new();
    let (mut a, mut b) = (1usize, 1usize);
    for byte in 0..34u8 {
        input.extend(std::iter::repeat(byte).take(a));
        let next = a + b;
        a = b;
        b = next;
    }
    assert_eq!(encode(&input), Err(HuffmanError::CodeTooLong));
    let root = huffman_tree(huffman_frequencies(&input)).expect("a tree");
    assert!(huffman_prefix_code_table(&root).is_none());
}
