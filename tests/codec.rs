use build_your_own::decoder::decode;
use build_your_own::encoder::encode;
use build_your_own::error::HuffmanError;

#[test]
fn encode_decode_should_return_original_input() {
    let input: &[u8] = b"super long string here woooooo";
    let original_length = input.len();

    let output = encode(input).expect("to work");

    let new_length = output.len();
    let output = decode(&output).expect("to work");

    assert!(original_length < new_length);
    assert_eq!(
        String::from_utf8(output.clone()).expect("to do it"),
        "super long string here woooooo".to_string()
    );
}

#[test]
fn testts_round_trips() {
    let encoded = encode(b"testts").expect("to work");
    assert_eq!(decode(&encoded), Ok(b"testts".to_vec()));
}

#[test]
fn every_length_from_one_to_sixteen_round_trips() {
    let text = b"abracadabra, said the cat!";
    for n in 1..=16 {
        let input = &text[..n];
        let encoded = encode(input).expect("to work");
        assert_eq!(decode(&encoded), Ok(input.to_vec()), "length {}", n);
    }
}

#[test]
fn repeated_byte_round_trips() {
    for n in [1usize, 2, 7, 8, 9, 100] {
        let input = vec![b'z'; n];
        let encoded = encode(&input).expect("to work");
        assert_eq!(decode(&encoded), Ok(input));
    }
}

#[test]
fn all_byte_values_round_trip() {
    let input: Vec<u8> = (0..=255u8).chain((0..=255u8).rev()).chain(0..40u8).collect();
    let encoded = encode(&input).expect("to work");
    assert_eq!(decode(&encoded), Ok(input));
}

#[test]
fn skewed_input_gets_shorter() {
    let mut input = Vec::new();
    for i in 0..20_000usize {
        input.push(match i % 20 {
            0 => b'x',
            1 | 2 => b'y',
            _ => b'e',
        });
    }
    let encoded = encode(&input).expect("to work");
    assert!(encoded.len() < input.len());
    assert_eq!(decode(&encoded), Ok(input));
}

#[test]
fn empty_stream_decodes_to_nothing() {
    assert_eq!(decode(&[]), Ok(vec![]));
    assert_eq!(encode(&[]).and_then(|e| decode(&e)), Ok(vec![]));
}

#[test]
fn short_streams_are_truncated() {
    assert_eq!(decode(&[0x80]), Err(HuffmanError::Truncated));
    // Eight zero flags: internal nodes without any leaf.
    assert_eq!(decode(&[0x00, 0x00]), Err(HuffmanError::Truncated));
    // A leaf flag and only three bits of its byte.
    assert_eq!(decode(&[0b1010_0000, 0x08]), Err(HuffmanError::Truncated));
}

#[test]
fn walk_stops_at_the_sentinel() {
    // Tree "ab" then codes 0 1 1 0: the padding after them is not decoded.
    assert_eq!(decode(&[0b0101_1000, 0b0110_1100, 0b0100_1100, 0x01]), Ok(b"abba".to_vec()));
}
