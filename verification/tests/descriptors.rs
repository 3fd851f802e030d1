use evm_decoder::abi_type::{members_head_span, AbiType};
use evm_decoder::error::DecodeError;

fn parsed(descriptor: &str) -> Result<AbiType, DecodeError> {
    AbiType::parse(descriptor)
}

#[test]
fn the_elementary_types_are_read() {
    assert_eq!(parsed("address"), Ok(AbiType::Address));
    assert_eq!(parsed("bool"), Ok(AbiType::Bool));
    assert_eq!(parsed("string"), Ok(AbiType::String));
    assert_eq!(parsed("bytes"), Ok(AbiType::Bytes));
    assert_eq!(parsed("uint8"), Ok(AbiType::Uint(8)));
    assert_eq!(parsed("uint160"), Ok(AbiType::Uint(160)));
    assert_eq!(parsed("uint256"), Ok(AbiType::Uint(256)));
    assert_eq!(parsed("int8"), Ok(AbiType::Int(8)));
    assert_eq!(parsed("int256"), Ok(AbiType::Int(256)));
    assert_eq!(parsed("bytes1"), Ok(AbiType::FixedBytes(1)));
    assert_eq!(parsed("bytes32"), Ok(AbiType::FixedBytes(32)));
}

#[test]
fn every_width_of_integers_in_steps_of_eight_is_read() {
    for bits in 1..=300u16 {
        let expected_unsigned = if bits % 8 == 0 && bits <= 256 { Ok(AbiType::Uint(bits)) } else { Err(DecodeError::UnsupportedType) };
        let expected_signed = if bits % 8 == 0 && bits <= 256 { Ok(AbiType::Int(bits)) } else { Err(DecodeError::UnsupportedType) };
        assert_eq!(parsed(&format!("uint{}", bits)), expected_unsigned);
        assert_eq!(parsed(&format!("int{}", bits)), expected_signed);
    }
    for len in 0..=40u8 {
        let expected = if 1 <= len && len <= 32 { Ok(AbiType::FixedBytes(len)) } else { Err(DecodeError::UnsupportedType) };
        assert_eq!(parsed(&format!("bytes{}", len)), expected);
    }
}

#[test]
fn arrays_are_read_from_the_right() {
    assert_eq!(parsed("uint256[]"), Ok(AbiType::Array(Box::new(AbiType::Uint(256)))));
    assert_eq!(parsed("uint256[3]"), Ok(AbiType::FixedArray(Box::new(AbiType::Uint(256)), 3)));
    assert_eq!(
        parsed("address[2][]"),
        Ok(AbiType::Array(Box::new(AbiType::FixedArray(Box::new(AbiType::Address), 2))))
    );
    assert_eq!(
        parsed("address[][12]"),
        Ok(AbiType::FixedArray(Box::new(AbiType::Array(Box::new(AbiType::Address))), 12))
    );
    assert_eq!(parsed("bool[18446744073709551615]"), Ok(AbiType::FixedArray(Box::new(AbiType::Bool), usize::MAX)));
    assert_eq!(parsed("bool[18446744073709551616]"), Err(DecodeError::UnsupportedType));
}

#[test]
fn tuples_are_split_at_the_commas_that_no_parenthesis_encloses() {
    assert_eq!(parsed("(bool)"), Ok(AbiType::Tuple(vec![AbiType::Bool])));
    assert_eq!(
        parsed("(uint256,address)"),
        Ok(AbiType::Tuple(vec![AbiType::Uint(256), AbiType::Address]))
    );
    assert_eq!(
        parsed("(uint256,(bool,string[]),bytes)[2]"),
        Ok(AbiType::FixedArray(
            Box::new(AbiType::Tuple(vec![
                AbiType::Uint(256),
                AbiType::Tuple(vec![AbiType::Bool, AbiType::Array(Box::new(AbiType::String))]),
                AbiType::Bytes,
            ])),
            2
        ))
    );
    assert_eq!(
        parsed("((bool,bool),(int8,int16))"),
        Ok(AbiType::Tuple(vec![
            AbiType::Tuple(vec![AbiType::Bool, AbiType::Bool]),
            AbiType::Tuple(vec![AbiType::Int(8), AbiType::Int(16)]),
        ]))
    );
    assert_eq!(parsed("(bool,bool"), Err(DecodeError::UnsupportedType));
    assert_eq!(parsed("(bool)(bool)"), Err(DecodeError::UnsupportedType));
    assert_eq!(parsed("(bool, bool)"), Err(DecodeError::UnsupportedType));
    assert_eq!(parsed("(bool,,bool)"), Err(DecodeError::UnsupportedType));
}

#[test]
fn text_that_is_not_ascii_names_no_type() {
    assert_eq!(parsed("uint256é"), Err(DecodeError::UnsupportedType));
    assert_eq!(parsed("bööl"), Err(DecodeError::UnsupportedType));
    assert_eq!(parsed("uint２５６"), Err(DecodeError::UnsupportedType));
}

#[test]
fn the_heads_of_members_add_up() {
    assert_eq!(members_head_span(&vec![]), Some(0));
    assert_eq!(members_head_span(&vec![AbiType::Bool, AbiType::String, AbiType::Uint(8)]), Some(96));
    assert_eq!(
        members_head_span(&vec![AbiType::Bool, AbiType::FixedArray(Box::new(AbiType::Bool), 4)]),
        Some(160)
    );
    assert_eq!(
        members_head_span(&vec![
            AbiType::FixedArray(Box::new(AbiType::Bool), usize::MAX / 32),
            AbiType::FixedArray(Box::new(AbiType::Bool), 4),
        ]),
        None
    );
}
