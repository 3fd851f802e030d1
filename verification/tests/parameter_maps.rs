use evm_decoder::decoder::LogDecoder;
use evm_decoder::error::DecodeError;
use evm_decoder::parameters::{DecodedParameter, ParameterMap};
use evm_decoder::value::DecodedValue;
use evm_decoder::word::Magnitude;

fn parameter(flag: bool) -> DecodedParameter {
    DecodedParameter {
        value: DecodedValue::Bool(flag),
        declared_type: "bool".to_string(),
        indexed: false,
        description: None,
    }
}

#[test]
fn a_new_map_is_empty() {
    let map = ParameterMap::new();
    assert!(map.is_empty());
    assert_eq!(map.len(), 0);
    assert!(map.get("a").is_none());
    assert!(!map.contains_key("a"));
    assert!(map.into_entries().is_empty());
}

#[test]
fn a_parameter_is_found_under_its_name() {
    let mut map = ParameterMap::new();
    map.insert("a".to_string(), parameter(true));
    map.insert("b".to_string(), parameter(false));
    assert!(!map.is_empty());
    assert_eq!(map.len(), 2);
    assert_eq!(map.get("a"), Some(&parameter(true)));
    assert_eq!(map.get("b"), Some(&parameter(false)));
    assert!(map.get("c").is_none());
    assert!(map.contains_key("a"));
    assert!(!map.contains_key("A"));
}

#[test]
fn a_name_is_held_once() {
    let mut map = ParameterMap::new();
    map.insert("a".to_string(), parameter(true));
    map.insert("b".to_string(), parameter(true));
    map.insert("a".to_string(), parameter(false));
    assert_eq!(map.len(), 2);
    assert_eq!(map.get("a"), Some(&parameter(false)));
    assert_eq!(map.get("b"), Some(&parameter(true)));
    let entries = map.into_entries();
    assert_eq!(entries.len(), 2);
    assert_eq!(entries[0].name, "a");
    assert_eq!(entries[0].parameter, parameter(false));
    assert_eq!(entries[1].name, "b");
}

#[test]
fn every_error_has_its_message() {
    assert_eq!(DecodeError::NoTopics.message(), "no topics found");
    assert_eq!(DecodeError::SignatureMismatch.message(), "signature mismatch");
    assert_eq!(DecodeError::UnsupportedType.message(), "unsupported type");
    assert_eq!(DecodeError::MalformedHexData.message(), "malformed hex data");
    assert_eq!(DecodeError::TruncatedWord.message(), "truncated word");
    assert_eq!(DecodeError::OffsetOutOfBounds.message(), "offset out of bounds");
    assert_eq!(DecodeError::MalformedSignature.message(), "malformed signature");
}

#[test]
fn a_topic_in_hex_is_decoded_for_its_type() {
    let decoder = LogDecoder::new();
    let topic = "0x000000000000000000000000000000000000000000000000000000000000002a";
    assert_eq!(
        decoder.decode_parameter(topic, "uint256"),
        Ok(DecodedValue::UnsignedInt { bits: 256, magnitude: Magnitude { high: 0, low: 42 } })
    );
    let mut digest = [0u8; 32];
    digest[31] = 42;
    assert_eq!(decoder.decode_parameter(topic, "string"), Ok(DecodedValue::HashOnly(digest)));
    assert_eq!(decoder.decode_parameter(topic, "uint"), Err(DecodeError::UnsupportedType));
    assert_eq!(decoder.decode_parameter("0x2a", "uint256"), Err(DecodeError::TruncatedWord));
    assert_eq!(decoder.decode_parameter("2a", "uint256"), Err(DecodeError::MalformedHexData));
    // the type is looked at before the topic
    assert_eq!(decoder.decode_parameter("2a", "uint"), Err(DecodeError::UnsupportedType));
}
