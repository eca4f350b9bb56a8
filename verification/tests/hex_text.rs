use bal_daemon::hex_text::{bytes_text, number_text, parse_address, quantity_text};
use bal_daemon::parse_hex_32;
use ethers_core::types::{Address, H256, U256};

#[test]
fn full_words_are_read() {
    let mut expected = [0u8; 32];
    expected[0] = 0xAB;
    expected[31] = 0xcd;
    let digits = format!("ab{}cd", "0".repeat(60));
    assert_eq!(parse_hex_32(&digits), Some(expected));
    assert_eq!(parse_hex_32(&format!("0x{digits}")), Some(expected));
    assert_eq!(parse_hex_32(&format!("0x{}", digits.to_uppercase())), Some(expected));
}

#[test]
fn short_words_are_padded() {
    let mut one = [0u8; 32];
    one[31] = 1;
    assert_eq!(parse_hex_32("0x1"), Some(one));
    assert_eq!(parse_hex_32("01"), Some(one));
    assert_eq!(parse_hex_32("0x0001"), Some(one));
    assert_eq!(parse_hex_32(""), Some([0; 32]));
    assert_eq!(parse_hex_32("0x"), Some([0; 32]));
    // Every prefix is dropped.
    assert_eq!(parse_hex_32("0x0x0x1"), Some(one));
}

#[test]
fn other_words_are_refused() {
    assert_eq!(parse_hex_32("0xg"), None);
    assert_eq!(parse_hex_32(" 1"), None);
    assert_eq!(parse_hex_32("0X1"), None);
    assert_eq!(parse_hex_32("é"), None);
    assert_eq!(parse_hex_32(&"0".repeat(65)), None);
    assert_eq!(parse_hex_32(&"0".repeat(66)), None);
}

#[test]
fn addresses_are_read_whole() {
    let digits = "00112233445566778899aabbccddeeff01234567";
    let expected: [u8; 20] = hex::decode(digits).unwrap().try_into().unwrap();
    assert_eq!(parse_address(digits), Some(expected));
    assert_eq!(parse_address(&format!("0x{digits}")), Some(expected));
    assert_eq!(parse_address(&digits.to_uppercase()), Some(expected));
    assert_eq!(parse_address(&digits[2..]), None);
    assert_eq!(parse_address(&format!("00{digits}")), None);
    assert_eq!(parse_address(&digits[1..]), None);
    assert_eq!(parse_address("0x"), None);
}

#[test]
fn numbers_are_written_without_leading_zeros() {
    for n in [0u64, 1, 9, 10, 15, 16, 255, 256, 0x5c1_b83b, u64::MAX] {
        assert_eq!(number_text(n), format!("{n:#x}"));
        let mut bytes = [0u8; 32];
        U256::from(n).to_big_endian(&mut bytes);
        assert_eq!(quantity_text(&bytes), format!("{:#x}", U256::from(n)));
    }
    assert_eq!(quantity_text(&[0xff; 32]), format!("{:#x}", U256::MAX));
    assert_eq!(quantity_text(&[]), "0x0");
}

#[test]
fn bytes_are_written_whole() {
    assert_eq!(bytes_text(&[]), "0x");
    assert_eq!(bytes_text(&[0, 0x0f, 0xf0]), "0x000ff0");
    let hash = H256::from_low_u64_be(0x1234);
    assert_eq!(bytes_text(hash.as_bytes()), format!("{hash:#x}"));
    let address = Address::from_low_u64_be(0xabcd);
    assert_eq!(bytes_text(address.as_bytes()), format!("{address:#x}"));
}

#[test]
fn what_is_written_is_read_back() {
    for byte in [0u8, 1, 0x0f, 0x10, 0x7f, 0x80, 0xff] {
        assert_eq!(parse_hex_32(&bytes_text(&[byte; 32])), Some([byte; 32]));
        assert_eq!(parse_hex_32(&quantity_text(&[byte; 32])), Some([byte; 32]));
        assert_eq!(parse_address(&bytes_text(&[byte; 20])), Some([byte; 20]));
    }
}

#[test]
fn leading_zeros_of_a_word_do_not_matter() {
    assert_eq!(parse_hex_32("0xabc"), parse_hex_32("0x0abc"));
}
