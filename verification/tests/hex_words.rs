use evm_decoder::error::DecodeError;
use evm_decoder::hexdata::decode_prefixed_hex;
use evm_decoder::text::{bytes_eq, copy_optional, text_eq};
use evm_decoder::word::Magnitude;

#[test]
fn hex_after_the_prefix_is_decoded() {
    assert_eq!(decode_prefixed_hex("0x"), Ok(vec![]));
    assert_eq!(decode_prefixed_hex("0x00"), Ok(vec![0]));
    assert_eq!(decode_prefixed_hex("0x0123456789abcdef"), Ok(vec![0x01, 0x23, 0x45, 0x67, 0x89, 0xab, 0xcd, 0xef]));
    assert_eq!(decode_prefixed_hex("0xABCDEF"), Ok(vec![0xab, 0xcd, 0xef]));
    assert_eq!(decode_prefixed_hex("0xaBcD"), Ok(vec![0xab, 0xcd]));
    assert_eq!(decode_prefixed_hex("0x3078"), Ok(vec![0x30, 0x78]));
}

#[test]
fn hex_that_is_malformed_is_refused() {
    for text in ["", "0", "x", "0X00", "00", "abcd", "0x0", "0x123", "0xg0", "0x0g", "0x 00", "0x00 ", "0x0x", "0xé0", "0x00é"] {
        assert_eq!(decode_prefixed_hex(text), Err(DecodeError::MalformedHexData), "{:?}", text);
    }
}

#[test]
fn a_magnitude_is_a_number_where_it_fits() {
    let small = Magnitude { high: 0, low: 42 };
    assert_eq!(small.to_u128(), Some(42));
    assert_eq!(small.to_usize(), Some(42));
    assert!(!small.is_zero());
    let zero = Magnitude { high: 0, low: 0 };
    assert!(zero.is_zero());
    assert_eq!(zero.to_usize(), Some(0));
    let wide = Magnitude { high: 1, low: 0 };
    assert_eq!(wide.to_u128(), None);
    assert_eq!(wide.to_usize(), None);
    assert!(!wide.is_zero());
    let widest_low = Magnitude { high: 0, low: u128::MAX };
    assert_eq!(widest_low.to_u128(), Some(u128::MAX));
    assert_eq!(widest_low.to_usize(), None);
    assert_eq!(Magnitude { high: 0, low: usize::MAX as u128 }.to_usize(), Some(usize::MAX));
}

#[test]
fn a_magnitude_and_its_negation_add_up_to_two_to_the_256() {
    assert_eq!(Magnitude { high: 0, low: 1 }.negated(), Magnitude { high: u128::MAX, low: u128::MAX });
    assert_eq!(Magnitude { high: u128::MAX, low: u128::MAX }.negated(), Magnitude { high: 0, low: 1 });
    assert_eq!(Magnitude { high: 1, low: 0 }.negated(), Magnitude { high: u128::MAX, low: 0 });
    assert_eq!(Magnitude { high: 1 << 127, low: 0 }.negated(), Magnitude { high: 1 << 127, low: 0 });
    assert_eq!(Magnitude { high: 5, low: 7 }.negated(), Magnitude { high: u128::MAX - 5, low: u128::MAX - 6 });
}

#[test]
fn a_word_is_read_from_any_position() {
    let mut raw = vec![0xeeu8; 3];
    raw.extend_from_slice(&[0u8; 15]);
    raw.push(2);
    raw.extend_from_slice(&[0u8; 15]);
    raw.push(3);
    raw.push(0xee);
    assert_eq!(Magnitude::from_word(&raw, 3), Magnitude { high: 2, low: 3 });
    let ascending: Vec<u8> = (0..32).collect();
    assert_eq!(
        Magnitude::from_word(&ascending, 0),
        Magnitude {
            high: 0x0001_0203_0405_0607_0809_0a0b_0c0d_0e0f,
            low: 0x1011_1213_1415_1617_1819_1a1b_1c1d_1e1f,
        }
    );
}

#[test]
fn texts_are_equal_where_their_bytes_are() {
    assert!(text_eq("", ""));
    assert!(text_eq("0x", "0x"));
    assert!(text_eq("héllo", "héllo"));
    assert!(!text_eq("hello", "hellp"));
    assert!(!text_eq("hello", "hell"));
    assert!(!text_eq("", "a"));
    assert!(bytes_eq(&[1, 2, 3], &[1, 2, 3]));
    assert!(!bytes_eq(&[1, 2, 3], &[1, 2, 4]));
    assert!(!bytes_eq(&[1, 2, 3], &[1, 2]));
    assert_eq!(copy_optional(&Some("note".to_string())), Some("note".to_string()));
    assert_eq!(copy_optional(&None), None);
}
