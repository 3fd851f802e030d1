use ethabi::ethereum_types::{H160, U256};
use ethabi::Token;
use evm_decoder::abi_type::AbiType;
use evm_decoder::param::{decode, decode_value};
use evm_decoder::value::DecodedValue;
use evm_decoder::word::Magnitude;

/// A small generator of numbers, the same on every run.
struct Numbers {
    state: u64,
}

impl Numbers {
    fn next(&mut self) -> u64 {
        self.state = self.state.wrapping_mul(6364136223846793005).wrapping_add(1442695040888963407);
        self.state >> 33
    }

    fn below(&mut self, bound: u64) -> u64 {
        self.next() % bound
    }

    fn bytes(&mut self, len: usize) -> Vec<u8> {
        (0..len).map(|_| self.below(256) as u8).collect()
    }
}

/// A type, its descriptor, a value of it as `ethabi` holds it, and the same value
/// as the decoder gives it.
struct Case {
    ty: AbiType,
    descriptor: String,
    token: Token,
    value: DecodedValue,
}

fn elementary(numbers: &mut Numbers) -> Case {
    match numbers.below(7) {
        0 => {
            let bits = 8 * (1 + numbers.below(32)) as u16;
            let low = numbers.next() as u128 * numbers.next() as u128;
            Case {
                ty: AbiType::Uint(bits),
                descriptor: format!("uint{}", bits),
                token: Token::Uint(U256::from(low)),
                value: DecodedValue::UnsignedInt { bits, magnitude: Magnitude { high: 0, low } },
            }
        }
        1 => {
            let bits = 8 * (1 + numbers.below(32)) as u16;
            let low = 1 + numbers.next() as u128;
            let negative = numbers.below(2) == 1;
            let word = if negative { U256::MAX - U256::from(low) + U256::from(1u8) } else { U256::from(low) };
            Case {
                ty: AbiType::Int(bits),
                descriptor: format!("int{}", bits),
                token: Token::Int(word),
                value: DecodedValue::SignedInt { bits, negative, magnitude: Magnitude { high: 0, low } },
            }
        }
        2 => {
            let mut address = [0u8; 20];
            address.copy_from_slice(&numbers.bytes(20));
            Case {
                ty: AbiType::Address,
                descriptor: "address".to_string(),
                token: Token::Address(H160::from(address)),
                value: DecodedValue::Address(address),
            }
        }
        3 => {
            let flag = numbers.below(2) == 1;
            Case {
                ty: AbiType::Bool,
                descriptor: "bool".to_string(),
                token: Token::Bool(flag),
                value: DecodedValue::Bool(flag),
            }
        }
        4 => {
            let len = 1 + numbers.below(32) as usize;
            let payload = numbers.bytes(len);
            Case {
                ty: AbiType::FixedBytes(len as u8),
                descriptor: format!("bytes{}", len),
                token: Token::FixedBytes(payload.clone()),
                value: DecodedValue::Bytes { fixed: true, payload },
            }
        }
        5 => {
            let len = numbers.below(70) as usize;
            let payload = numbers.bytes(len);
            Case {
                ty: AbiType::Bytes,
                descriptor: "bytes".to_string(),
                token: Token::Bytes(payload.clone()),
                value: DecodedValue::Bytes { fixed: false, payload },
            }
        }
        _ => {
            let len = numbers.below(70) as usize;
            let text: String = (0..len).map(|_| (b'a' + numbers.below(26) as u8) as char).collect();
            Case {
                ty: AbiType::String,
                descriptor: "string".to_string(),
                token: Token::String(text.clone()),
                value: DecodedValue::String(text),
            }
        }
    }
}

/// Values of the type of `first`, `count` of them.
fn more_of(numbers: &mut Numbers, first: Case, count: usize) -> (Case, Vec<Token>, Vec<DecodedValue>) {
    let mut tokens = Vec::new();
    let mut values = Vec::new();
    for _ in 0..count {
        let (token, value) = same_shape(numbers, &first.ty);
        tokens.push(token);
        values.push(value);
    }
    (first, tokens, values)
}

/// A value of the type `ty`.
fn same_shape(numbers: &mut Numbers, ty: &AbiType) -> (Token, DecodedValue) {
    match ty {
        AbiType::Uint(bits) => {
            let low = numbers.next() as u128;
            (Token::Uint(U256::from(low)), DecodedValue::UnsignedInt { bits: *bits, magnitude: Magnitude { high: 0, low } })
        }
        AbiType::Int(bits) => {
            let low = 1 + numbers.next() as u128;
            (Token::Int(U256::from(low)), DecodedValue::SignedInt { bits: *bits, negative: false, magnitude: Magnitude { high: 0, low } })
        }
        AbiType::Address => {
            let mut address = [0u8; 20];
            address.copy_from_slice(&numbers.bytes(20));
            (Token::Address(H160::from(address)), DecodedValue::Address(address))
        }
        AbiType::Bool => {
            let flag = numbers.below(2) == 1;
            (Token::Bool(flag), DecodedValue::Bool(flag))
        }
        AbiType::FixedBytes(len) => {
            let payload = numbers.bytes(*len as usize);
            (Token::FixedBytes(payload.clone()), DecodedValue::Bytes { fixed: true, payload })
        }
        AbiType::Bytes => {
            let len = numbers.below(40) as usize;
            let payload = numbers.bytes(len);
            (Token::Bytes(payload.clone()), DecodedValue::Bytes { fixed: false, payload })
        }
        AbiType::String => {
            let len = numbers.below(40) as usize;
            let text: String = (0..len).map(|_| (b'A' + numbers.below(26) as u8) as char).collect();
            (Token::String(text.clone()), DecodedValue::String(text))
        }
        AbiType::Array(element) => {
            let count = numbers.below(4) as usize;
            let (tokens, items): (Vec<Token>, Vec<DecodedValue>) =
                (0..count).map(|_| same_shape(numbers, element)).unzip();
            (Token::Array(tokens), DecodedValue::Array { element_type: (**element).clone(), items })
        }
        AbiType::FixedArray(element, count) => {
            let (tokens, items): (Vec<Token>, Vec<DecodedValue>) =
                (0..*count).map(|_| same_shape(numbers, element)).unzip();
            (Token::FixedArray(tokens), DecodedValue::Array { element_type: (**element).clone(), items })
        }
        AbiType::Tuple(members) => {
            let (tokens, values): (Vec<Token>, Vec<DecodedValue>) =
                members.iter().map(|member| same_shape(numbers, member)).unzip();
            (Token::Tuple(tokens), DecodedValue::Tuple(values))
        }
    }
}

fn case(numbers: &mut Numbers, depth: u32) -> Case {
    if depth == 0 {
        return elementary(numbers);
    }
    match numbers.below(4) {
        0 => elementary(numbers),
        1 => {
            let count = numbers.below(4) as usize;
            let (element, tokens, items) = {
                let first = case(numbers, depth - 1);
                more_of(numbers, first, count)
            };
            Case {
                descriptor: format!("{}[]", element.descriptor),
                token: Token::Array(tokens),
                value: DecodedValue::Array { element_type: element.ty.clone(), items },
                ty: AbiType::Array(Box::new(element.ty)),
            }
        }
        2 => {
            let count = 1 + numbers.below(3) as usize;
            let (element, tokens, items) = {
                let first = case(numbers, depth - 1);
                more_of(numbers, first, count)
            };
            Case {
                descriptor: format!("{}[{}]", element.descriptor, count),
                token: Token::FixedArray(tokens),
                value: DecodedValue::Array { element_type: element.ty.clone(), items },
                ty: AbiType::FixedArray(Box::new(element.ty), count),
            }
        }
        _ => {
            let count = 1 + numbers.below(4) as usize;
            let members: Vec<Case> = (0..count).map(|_| case(numbers, depth - 1)).collect();
            let descriptors: Vec<String> = members.iter().map(|m| m.descriptor.clone()).collect();
            let mut types = Vec::new();
            let mut tokens = Vec::new();
            let mut values = Vec::new();
            for member in members {
                types.push(member.ty);
                tokens.push(member.token);
                values.push(member.value);
            }
            Case {
                descriptor: format!("({})", descriptors.join(",")),
                token: Token::Tuple(tokens),
                value: DecodedValue::Tuple(values),
                ty: AbiType::Tuple(types),
            }
        }
    }
}

#[test]
fn generated_values_come_back_from_what_ethabi_encodes() {
    let mut numbers = Numbers { state: 0x5eed };
    let mut composite = 0;
    for round in 0..600 {
        let generated = case(&mut numbers, 1 + (round % 3));
        if !generated.ty.is_elementary() {
            composite += 1;
        }
        assert_eq!(AbiType::parse(&generated.descriptor), Ok(generated.ty.clone()), "{}", generated.descriptor);
        let raw = ethabi::encode(&[generated.token.clone()]);
        assert_eq!(decode(&raw, &generated.descriptor), Ok(generated.value), "{}", generated.descriptor);
        assert!(decode_value(&generated.ty, &raw).is_ok());
        // with the last byte gone, a value that reaches it cannot be read
        if generated.ty.is_elementary() {
            assert!(decode(&raw[..raw.len() - 1], &generated.descriptor).is_err());
        }
    }
    assert!(composite > 200);
}

#[test]
fn generated_lists_come_back_from_what_ethabi_encodes() {
    let mut numbers = Numbers { state: 0xabcdef };
    for _ in 0..200 {
        let count = 1 + numbers.below(5) as usize;
        let cases: Vec<Case> = (0..count).map(|_| case(&mut numbers, 2)).collect();
        let tokens: Vec<Token> = cases.iter().map(|c| c.token.clone()).collect();
        let raw = ethabi::encode(&tokens);
        let mut head = 0usize;
        for generated in cases {
            assert_eq!(
                evm_decoder::param::decode_at(&generated.ty, &raw, 0, head),
                Ok(generated.value),
                "{} at {}",
                generated.descriptor,
                head
            );
            head += generated.ty.head_size().unwrap();
        }
    }
}
