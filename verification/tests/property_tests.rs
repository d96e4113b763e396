use cryptopals::B64Error;
use cryptopals::HexError;
use cryptopals::byte_frequencies;
use cryptopals::bytes_to_hex;
use cryptopals::decode_b64;
use cryptopals::encode_b64;
use cryptopals::hex_to_bytes;
use cryptopals::xor;

#[test]
fn hex_round_trip() {
    let samples: Vec<Vec<u8>> = vec![
        vec![],
        vec![0],
        vec![255],
        vec![0, 1, 2, 3, 4, 5],
        vec![0xde, 0xad, 0xbe, 0xef],
        (0..=255).collect(),
    ];
    for bytes in samples.iter() {
        let hex = bytes_to_hex(bytes);
        assert_eq!(hex_to_bytes(&hex).unwrap(), *bytes);
    }
}

#[test]
fn b64_round_trip() {
    let samples: Vec<Vec<u8>> = vec![
        vec![],
        vec![0],
        vec![1, 2],
        vec![1, 2, 3],
        vec![1, 2, 3, 4],
        vec![0xff, 0xfe, 0xfd, 0xfc, 0xfb],
        (0..=255).collect(),
    ];
    for bytes in samples.iter() {
        let text = encode_b64(bytes);
        assert_eq!(decode_b64(&text).unwrap(), *bytes);
    }
}

#[test]
fn hex_encode_is_lowercase() {
    let bytes: Vec<u8> = (0..=255).collect();
    let hex = bytes_to_hex(&bytes);
    assert!(hex.chars().all(|c| ('0'..='9').contains(&c) || ('a'..='f').contains(&c)));
}

#[test]
fn b64_encode_is_properly_padded() {
    for n in 0..12usize {
        let bytes: Vec<u8> = (0..n as u8).collect();
        let text = encode_b64(&bytes);
        assert_eq!(text.len() % 4, 0);
        assert_eq!(text.len(), 4 * ((n + 2) / 3));
        let pad = (3 - n % 3) % 3;
        let chars: Vec<char> = text.chars().collect();
        for (i, c) in chars.iter().enumerate() {
            if i < chars.len() - pad {
                assert!(c.is_ascii_alphanumeric() || *c == '+' || *c == '/');
            } else {
                assert_eq!(*c, '=');
            }
        }
    }
}

#[test]
fn hex_decode_rejects_invalid() {
    assert!(matches!(hex_to_bytes(&"zz".to_string()), Err(HexError)));
    assert!(matches!(hex_to_bytes(&"AB".to_string()), Err(HexError)));
    assert!(matches!(hex_to_bytes(&"0g".to_string()), Err(HexError)));
}

#[test]
fn hex_decode_rejects_odd_length() {
    assert!(matches!(hex_to_bytes(&"abc".to_string()), Err(HexError)));
    assert!(matches!(hex_to_bytes(&"a".to_string()), Err(HexError)));
}

#[test]
fn b64_decode_rejects_invalid() {
    assert!(matches!(decode_b64(&"!!!!".to_string()), Err(B64Error)));
    assert!(matches!(decode_b64(&"AB-D".to_string()), Err(B64Error)));
}

#[test]
fn hex_length_invariant() {
    for n in 0..9usize {
        let bytes: Vec<u8> = (0..n as u8).collect();
        assert_eq!(bytes_to_hex(&bytes).len(), 2 * n);
    }
}

#[test]
fn codecs_map_empty_to_empty() {
    assert_eq!(bytes_to_hex(&vec![]), "");
    assert_eq!(hex_to_bytes(&"".to_string()).unwrap(), Vec::<u8>::new());
    assert_eq!(encode_b64(&vec![]), "");
    assert_eq!(decode_b64(&"".to_string()).unwrap(), Vec::<u8>::new());
}

#[test]
fn b64_known_vectors() {
    assert_eq!(encode_b64(&b"foo".to_vec()), "Zm9v");
    assert_eq!(encode_b64(&b"foob".to_vec()), "Zm9vYg==");
    assert_eq!(encode_b64(&b"fooba".to_vec()), "Zm9vYmE=");
    assert_eq!(encode_b64(&b"foobar".to_vec()), "Zm9vYmFy");
    assert_eq!(decode_b64(&"Zm9vYmFy".to_string()).unwrap(), b"foobar".to_vec());
}

#[test]
fn b64_plus_and_slash() {
    assert_eq!(encode_b64(&vec![0xfb]), "+w==");
    assert_eq!(encode_b64(&vec![0xff, 0xff, 0xff]), "////");
    assert_eq!(decode_b64(&"+w==".to_string()).unwrap(), vec![0xfb]);
    assert_eq!(decode_b64(&"////".to_string()).unwrap(), vec![0xff, 0xff, 0xff]);
}

#[test]
fn b64_decode_strips_pad_anywhere() {
    assert_eq!(decode_b64(&"A=B=".to_string()).unwrap(), vec![0]);
}

#[test]
fn b64_decode_unpadded_input() {
    assert_eq!(decode_b64(&"QUJDRA".to_string()).unwrap(), b"ABCD".to_vec());
}

#[test]
fn xor_combines_elementwise() {
    let a = vec![0b1010_1010, 0x00, 0xff];
    let b = vec![0b0101_0101, 0xff, 0xff];
    assert_eq!(xor(&a, &b), vec![0xff, 0xff, 0x00]);
    assert_eq!(xor(&vec![], &vec![]), Vec::<u8>::new());
}

#[test]
fn frequencies_sorted_descending() {
    let text = b"aabbbc".to_vec();
    assert_eq!(byte_frequencies(&text), vec![(b'b', 3), (b'a', 2), (b'c', 1)]);
}

#[test]
fn frequencies_ties_by_ascending_byte() {
    let text = vec![9, 7, 7, 9, 3, 3];
    assert_eq!(byte_frequencies(&text), vec![(3, 2), (7, 2), (9, 2)]);
}

#[test]
fn frequencies_of_empty_text() {
    assert_eq!(byte_frequencies(&vec![]), Vec::<(u8, u64)>::new());
}
