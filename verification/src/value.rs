//! The values that decoding yields.

use crate::abi_type::{AbiType, AbiTypeView};
use crate::word::Magnitude;
use vstd::prelude::*;

verus! {

/// The mathematical model of a decoded value.
pub enum ValueView {
    /// The 20 bytes of an address.
    Address(Seq<u8>),
    /// An unsigned integer of the declared width.
    UnsignedInt { bits: nat, magnitude: nat },
    /// A signed integer of the declared width.
    SignedInt { bits: nat, value: int },
    Bool(bool),
    String(Seq<char>),
    /// The payload of `bytes<len>` (`fixed`) or of `bytes`.
    Bytes { fixed: bool, payload: Seq<u8> },
    Array { element_type: AbiTypeView, items: Seq<ValueView> },
    Tuple(Seq<ValueView>),
    /// The digest that a topic holds in place of a value that has no fixed size.
    HashOnly(Seq<u8>),
}

/// A decoded value, tagged with its kind.
#[derive(Debug, PartialEq, Eq)]
pub enum DecodedValue {
    /// An address.
    Address([u8; 20]),
    /// An unsigned integer: its declared width in bits and its size.
    UnsignedInt { bits: u16, magnitude: Magnitude },
    /// A signed integer: its declared width in bits, its sign and its size.
    SignedInt { bits: u16, negative: bool, magnitude: Magnitude },
    /// A truth value.
    Bool(bool),
    /// Text.
    String(String),
    /// Bytes: whether the type fixes their number, and the bytes themselves.
    Bytes { fixed: bool, payload: Vec<u8> },
    /// The elements of an array, all of one type.
    Array { element_type: AbiType, items: Vec<DecodedValue> },
    /// The members of a tuple.
    Tuple(Vec<DecodedValue>),
    /// The digest that stands in a topic for a value that is not recoverable from it.
    HashOnly([u8; 32]),
}

impl DecodedValue {
    /// The model of this value.
    pub open spec fn model(&self) -> ValueView
        decreases self,
    {
        match self {
            DecodedValue::Address(bytes) => ValueView::Address(bytes@),
            DecodedValue::UnsignedInt { bits, magnitude } => ValueView::UnsignedInt {
                bits: *bits as nat,
                magnitude: magnitude@,
            },
            DecodedValue::SignedInt { bits, negative, magnitude } => ValueView::SignedInt {
                bits: *bits as nat,
                value: if *negative {
                    -(magnitude@ as int)
                } else {
                    magnitude@ as int
                },
            },
            DecodedValue::Bool(b) => ValueView::Bool(*b),
            DecodedValue::String(text) => ValueView::String(text@),
            DecodedValue::Bytes { fixed, payload } => ValueView::Bytes {
                fixed: *fixed,
                payload: payload@,
            },
            DecodedValue::Array { element_type, items } => ValueView::Array {
                element_type: element_type@,
                items: Seq::new(
                    items@.len(),
                    |i: int|
                        if 0 <= i < items@.len() {
                            items@[i].model()
                        } else {
                            ValueView::Bool(false)
                        },
                ),
            },
            DecodedValue::Tuple(members) => ValueView::Tuple(
                Seq::new(
                    members@.len(),
                    |i: int|
                        if 0 <= i < members@.len() {
                            members@[i].model()
                        } else {
                            ValueView::Bool(false)
                        },
                ),
            ),
            DecodedValue::HashOnly(digest) => ValueView::HashOnly(digest@),
        }
    }
}

impl View for DecodedValue {
    type V = ValueView;

    open spec fn view(&self) -> ValueView {
        self.model()
    }
}

/// The models of a list of values.
pub open spec fn values_of(values: Seq<DecodedValue>) -> Seq<ValueView> {
    Seq::new(values.len(), |i: int| values[i]@)
}

} // verus!
