use evm_decoder::decoder::{decode, DecodedLog, EventInput, EventSignature, LogDecoder, LogEntry};
use evm_decoder::error::DecodeError;
use evm_decoder::value::DecodedValue;
use evm_decoder::word::Magnitude;

const TRANSFER_HASH: &str = "0xddf252ad1be2c89b69c2b068fc378daa952ba7f163c4a11628f55a4df523b3ef";
const TOPIC_FROM: &str = "0x000000000000000000000000a9d1e08c7793af67e9d92fe308d5697fb81d3e43";
const TOPIC_TO: &str = "0x00000000000000000000000028c6c06298d514db089934071355e5743bf21d60";
const ONE_ETHER: &str = "0x0000000000000000000000000000000000000000000000000de0b6b3a7640000";

fn input(name: &str, declared_type: &str, indexed: bool) -> EventInput {
    EventInput {
        name: name.to_string(),
        declared_type: declared_type.to_string(),
        indexed,
        description: None,
    }
}

fn signature(hash: &str, event_name: &str, inputs: Vec<EventInput>) -> EventSignature {
    EventSignature {
        signature_hash: hash.to_string(),
        event_name: event_name.to_string(),
        decoded_signature: format!("{}(..)", event_name),
        input_types: inputs.iter().map(|i| i.declared_type.clone()).collect(),
        indexed_inputs: inputs.iter().map(|i| i.indexed).collect(),
        input_names: inputs.iter().map(|i| i.name.clone()).collect(),
        inputs,
    }
}

fn transfer() -> EventSignature {
    let mut from = input("from", "address", true);
    from.description = Some("the sender".to_string());
    signature(
        TRANSFER_HASH,
        "Transfer",
        vec![from, input("to", "address", true), input("value", "uint256", false)],
    )
}

fn log(topics: &[&str], data: &str) -> LogEntry {
    LogEntry {
        address: "0xdac17f958d2ee523a2206206994597c13d831ec7".to_string(),
        topics: topics.iter().map(|t| t.to_string()).collect(),
        data: data.to_string(),
        log_index: 7,
        transaction_hash: "0x01".to_string(),
    }
}

fn address(hex_text: &str) -> DecodedValue {
    let bytes = hex::decode(hex_text).unwrap();
    let mut out = [0u8; 20];
    out.copy_from_slice(&bytes);
    DecodedValue::Address(out)
}

fn value_of<'a>(decoded: &'a DecodedLog, name: &str) -> &'a DecodedValue {
    &decoded.parameters.as_ref().unwrap().get(name).unwrap().value
}

#[test]
fn transfer_with_all_topics_is_decoded() {
    let decoded = decode(&log(&[TRANSFER_HASH, TOPIC_FROM, TOPIC_TO], ONE_ETHER), &transfer());
    assert_eq!(decoded.event, "Transfer");
    assert_eq!(decoded.signature, Some(TRANSFER_HASH.to_string()));
    assert_eq!(decoded.decode_error, None);
    assert_eq!(decoded.log_index, 7);
    let parameters = decoded.parameters.as_ref().unwrap();
    assert_eq!(parameters.len(), 3);
    assert_eq!(value_of(&decoded, "from"), &address("a9d1e08c7793af67e9d92fe308d5697fb81d3e43"));
    assert_eq!(value_of(&decoded, "to"), &address("28c6c06298d514db089934071355e5743bf21d60"));
    assert_eq!(
        value_of(&decoded, "value"),
        &DecodedValue::UnsignedInt {
            bits: 256,
            magnitude: Magnitude { high: 0, low: 1_000_000_000_000_000_000 },
        }
    );
    let from = parameters.get("from").unwrap();
    assert_eq!(from.declared_type, "address");
    assert!(from.indexed);
    assert_eq!(from.description, Some("the sender".to_string()));
    let value = parameters.get("value").unwrap();
    assert_eq!(value.declared_type, "uint256");
    assert!(!value.indexed);
    assert_eq!(value.description, None);
}

#[test]
fn transfer_with_a_missing_topic_is_partial() {
    let decoded = decode(&log(&[TRANSFER_HASH, TOPIC_FROM], ONE_ETHER), &transfer());
    assert_eq!(decoded.event, "Transfer");
    assert_eq!(decoded.decode_error, None);
    let parameters = decoded.parameters.as_ref().unwrap();
    assert_eq!(parameters.len(), 2);
    assert!(parameters.contains_key("from"));
    assert!(!parameters.contains_key("to"));
    assert!(parameters.get("to").is_none());
    assert_eq!(
        value_of(&decoded, "value"),
        &DecodedValue::UnsignedInt {
            bits: 256,
            magnitude: Magnitude { high: 0, low: 1_000_000_000_000_000_000 },
        }
    );
}

#[test]
fn transfer_without_data_keeps_the_indexed_parameters() {
    for data in ["0x", ""] {
        let decoded = decode(&log(&[TRANSFER_HASH, TOPIC_FROM, TOPIC_TO], data), &transfer());
        assert_eq!(decoded.decode_error, None);
        let parameters = decoded.parameters.as_ref().unwrap();
        assert_eq!(parameters.len(), 2);
        assert!(parameters.contains_key("from"));
        assert!(parameters.contains_key("to"));
        assert!(!parameters.contains_key("value"));
    }
}

#[test]
fn a_log_without_topics_is_unknown() {
    let decoded = decode(&log(&[], ONE_ETHER), &transfer());
    assert_eq!(decoded.event, "Unknown");
    assert!(decoded.parameters.is_none());
    assert_eq!(decoded.signature, None);
    assert_eq!(decoded.decode_error, Some("no topics found".to_string()));
    assert_eq!(decoded.decode_error, Some(DecodeError::NoTopics.message()));
    assert_eq!(decoded.log_index, 7);
}

#[test]
fn a_signature_without_inputs_gives_an_empty_mapping() {
    let ping = signature(TRANSFER_HASH, "Ping", vec![]);
    let decoded = decode(&log(&[TRANSFER_HASH], "0xzz"), &ping);
    assert_eq!(decoded.event, "Ping");
    assert_eq!(decoded.decode_error, None);
    let parameters = decoded.parameters.as_ref().unwrap();
    assert!(parameters.is_empty());
    assert_eq!(parameters.len(), 0);
}

#[test]
fn a_mismatch_of_the_first_topic_is_reported_and_decoding_goes_on() {
    let decoded = decode(&log(&[TOPIC_FROM, TOPIC_FROM, TOPIC_TO], ONE_ETHER), &transfer());
    assert_eq!(decoded.event, "Transfer");
    assert_eq!(decoded.signature, Some(TOPIC_FROM.to_string()));
    assert_eq!(decoded.decode_error, Some(DecodeError::SignatureMismatch.message()));
    assert_eq!(decoded.decode_error, Some("signature mismatch".to_string()));
    assert_eq!(decoded.parameters.as_ref().unwrap().len(), 3);
}

#[test]
fn a_malformed_signature_stops_decoding_at_once() {
    let mut broken = transfer();
    broken.input_names.pop();
    let decoded = decode(&log(&[TRANSFER_HASH, TOPIC_FROM, TOPIC_TO], ONE_ETHER), &broken);
    assert_eq!(decoded.event, "Transfer");
    assert!(decoded.parameters.is_none());
    assert_eq!(decoded.decode_error, Some(DecodeError::MalformedSignature.message()));
    assert_eq!(decoded.decode_error, Some("malformed signature".to_string()));

    let mut renamed = transfer();
    renamed.inputs[1].name = "recipient".to_string();
    assert!(!renamed.is_well_formed());
    assert!(transfer().is_well_formed());
    let decoded = decode(&log(&[TRANSFER_HASH, TOPIC_FROM, TOPIC_TO], ONE_ETHER), &renamed);
    assert_eq!(decoded.decode_error, Some(DecodeError::MalformedSignature.message()));
}

#[test]
fn malformed_data_is_reported_and_the_topics_are_kept() {
    let decoded = decode(&log(&[TRANSFER_HASH, TOPIC_FROM, TOPIC_TO], "0x0g"), &transfer());
    assert_eq!(decoded.decode_error, Some(DecodeError::MalformedHexData.message()));
    assert_eq!(decoded.decode_error, Some("malformed hex data".to_string()));
    let parameters = decoded.parameters.as_ref().unwrap();
    assert_eq!(parameters.len(), 2);
    assert!(parameters.contains_key("from"));
    assert!(parameters.contains_key("to"));
}

#[test]
fn truncated_data_is_reported() {
    let decoded = decode(&log(&[TRANSFER_HASH, TOPIC_FROM, TOPIC_TO], "0x0de0b6b3a7640000"), &transfer());
    assert_eq!(decoded.decode_error, Some(DecodeError::TruncatedWord.message()));
    assert_eq!(decoded.decode_error, Some("truncated word".to_string()));
    assert_eq!(decoded.parameters.as_ref().unwrap().len(), 2);
}

#[test]
fn an_unknown_type_is_reported() {
    let odd = signature(
        TRANSFER_HASH,
        "Odd",
        vec![input("a", "uint256", false), input("b", "uint7", false), input("c", "bool", false)],
    );
    let data = format!("0x{}{}{}", "00".repeat(31) + "05", "00".repeat(32), "00".repeat(31) + "01");
    let decoded = decode(&log(&[TRANSFER_HASH], &data), &odd);
    assert_eq!(decoded.decode_error, Some(DecodeError::UnsupportedType.message()));
    assert_eq!(decoded.decode_error, Some("unsupported type".to_string()));
    let parameters = decoded.parameters.as_ref().unwrap();
    assert_eq!(parameters.len(), 1);
    assert!(parameters.contains_key("a"));
}

#[test]
fn the_first_error_is_the_one_reported() {
    let pair = signature(
        TRANSFER_HASH,
        "Pair",
        vec![input("a", "bytes", false), input("b", "uint256", false), input("c", "uint256", false)],
    );
    let data = format!("0x{}{}", "00".repeat(31) + "ff", "00".repeat(31) + "09");
    let decoded = decode(&log(&[TRANSFER_HASH], &data), &pair);
    assert_eq!(decoded.decode_error, Some(DecodeError::OffsetOutOfBounds.message()));
    assert_eq!(decoded.decode_error, Some("offset out of bounds".to_string()));
    let parameters = decoded.parameters.as_ref().unwrap();
    assert_eq!(parameters.len(), 1);
    assert_eq!(
        value_of(&decoded, "b"),
        &DecodedValue::UnsignedInt { bits: 256, magnitude: Magnitude { high: 0, low: 9 } }
    );
}

#[test]
fn an_indexed_string_is_only_a_digest() {
    let named = signature(
        TRANSFER_HASH,
        "Named",
        vec![input("label", "string", true), input("ids", "uint256[]", true), input("pair", "uint8[2]", true)],
    );
    let decoded = decode(&log(&[TRANSFER_HASH, TOPIC_FROM, TOPIC_TO, ONE_ETHER], "0x"), &named);
    assert_eq!(decoded.decode_error, None);
    let mut digest = [0u8; 32];
    digest.copy_from_slice(&hex::decode(&TOPIC_FROM[2..]).unwrap());
    assert_eq!(value_of(&decoded, "label"), &DecodedValue::HashOnly(digest));
    digest.copy_from_slice(&hex::decode(&TOPIC_TO[2..]).unwrap());
    assert_eq!(value_of(&decoded, "ids"), &DecodedValue::HashOnly(digest));
    digest.copy_from_slice(&hex::decode(&ONE_ETHER[2..]).unwrap());
    assert_eq!(value_of(&decoded, "pair"), &DecodedValue::HashOnly(digest));
}

#[test]
fn a_bad_topic_is_reported_and_the_next_topic_is_still_used() {
    let decoded = decode(&log(&[TRANSFER_HASH, "0x1234", TOPIC_TO], ONE_ETHER), &transfer());
    assert_eq!(decoded.decode_error, Some(DecodeError::TruncatedWord.message()));
    let parameters = decoded.parameters.as_ref().unwrap();
    assert!(!parameters.contains_key("from"));
    assert_eq!(value_of(&decoded, "to"), &address("28c6c06298d514db089934071355e5743bf21d60"));
    assert!(parameters.contains_key("value"));

    let decoded = decode(&log(&[TRANSFER_HASH, "1234", TOPIC_TO], ONE_ETHER), &transfer());
    assert_eq!(decoded.decode_error, Some(DecodeError::MalformedHexData.message()));
}

#[test]
fn a_later_parameter_of_the_same_name_takes_the_place_of_the_earlier() {
    let twice = signature(
        TRANSFER_HASH,
        "Twice",
        vec![input("x", "uint256", false), input("x", "bool", false)],
    );
    let data = format!("0x{}{}", "00".repeat(31) + "05", "00".repeat(31) + "01");
    let decoded = decode(&log(&[TRANSFER_HASH], &data), &twice);
    assert_eq!(decoded.decode_error, None);
    assert_eq!(decoded.parameters.as_ref().unwrap().len(), 1);
    assert_eq!(value_of(&decoded, "x"), &DecodedValue::Bool(true));
}

#[test]
fn decoding_twice_gives_the_same_result() {
    let entry = log(&[TRANSFER_HASH, TOPIC_FROM, TOPIC_TO], ONE_ETHER);
    let first = decode(&entry, &transfer());
    let second = decode(&entry, &transfer());
    assert_eq!(first, second);
}

#[test]
fn the_decoder_decodes_as_the_function_does() {
    let mut decoder = LogDecoder::new();
    let entry = log(&[TRANSFER_HASH, TOPIC_FROM, TOPIC_TO], ONE_ETHER);
    assert_eq!(decoder.decode_log(&entry, &transfer()), decode(&entry, &transfer()));
}
