use cryptopals::bytes_to_hex;
use cryptopals::decode_b64;
use cryptopals::encode_b64;
use cryptopals::hex_to_bytes;
use cryptopals::xor;

#[test]
fn test_hex() {
    let hex = "0123456789abcdef".to_string();
    let bytes = vec![1, 35, 69, 103, 137, 171, 205, 239];
    assert_eq!(hex_to_bytes(&hex).unwrap(), bytes);
    assert_eq!(bytes_to_hex(&bytes), hex);
}

#[test]
fn test_b64() {
    let bytes: Vec<u8> = (0..16).into_iter().collect();
    let b64 = "AAECAwQFBgcICQoLDA0ODw==".to_string();
    assert_eq!(encode_b64(&bytes), b64);
    assert_eq!(decode_b64(&b64).unwrap(), bytes);
}

#[test]
fn test_xor() {
    let a = hex_to_bytes(&"1c0111001f010100061a024b53535009181c".to_string()).unwrap();
    let b = hex_to_bytes(&"686974207468652062756c6c277320657965".to_string()).unwrap();
    let c = hex_to_bytes(&"746865206b696420646f6e277420706c6179".to_string()).unwrap();
    assert_eq!(xor(&a, &b), c);
}
