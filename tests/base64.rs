use identicon::base64::encode;

#[test]
fn test_one() {
    let one_byte: [u8; 1] = [0b01001101];
    assert_eq!(encode(&one_byte), "TQ==");
}

#[test]
fn test_two() {
    let two_bytes: [u8; 2] = [0b01001101, 0b01100001];
    assert_eq!(encode(&two_bytes), "TWE=");
}

#[test]
fn test_three() {
    let three_bytes: [u8; 3] = [0b01001101, 0b01100001, 0b01101110];
    assert_eq!(encode(&three_bytes), "TWFu");
}

#[test]
fn test_long() {
    let bytes1: [u8; 9] = [
        0b01100001, 0b01100010, 0b01010000, 0b00111001, 0b01111000, 0b00110100, 0b01000100,
        0b01000110, 0b01101111,
    ];
    let bytes2: [u8; 10] = [
        0b01100001, 0b01100010, 0b01010000, 0b00111001, 0b01111000, 0b00110100, 0b01000100,
        0b01000110, 0b01101111, 0b01110110,
    ];
    let bytes3: [u8; 11] = [
        0b01100001, 0b01100010, 0b01010000, 0b00111001, 0b01111000, 0b00110100, 0b01000100,
        0b01000110, 0b01101111, 0b01110110, 0b01001000,
    ];
    assert_eq!(encode(&bytes1), "YWJQOXg0REZv");
    assert_eq!(encode(&bytes2), "YWJQOXg0REZvdg==");
    assert_eq!(encode(&bytes3), "YWJQOXg0REZvdkg=");
}

#[test]
fn encode_empty() {
    assert_eq!(encode(&[]), "");
}

#[test]
fn encode_uses_whole_alphabet_tail() {
    assert_eq!(encode(&[0xfb, 0xff, 0xbf]), "+/+/");
    assert_eq!(encode(&[0x00, 0x00, 0x00]), "AAAA");
}

#[test]
fn encode_length_and_padding() {
    for n in 0..20usize {
        let bytes: Vec<u8> = (0..n).map(|i| (i * 37 + 11) as u8).collect();
        let text = encode(&bytes);
        assert_eq!(text.len(), (n + 2) / 3 * 4);
        let pad = text.chars().rev().take_while(|c| *c == '=').count();
        let expected = match n % 3 {
            0 => 0,
            1 => 2,
            _ => 1,
        };
        assert_eq!(pad, expected);
    }
}
