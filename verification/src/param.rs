//! Decoding one typed value from bytes, by the head and tail rule.
//!
//! A value of a type with a fixed size lies in the head. Of any other value the
//! head holds one word, the offset at which the value's body starts in the tail.

use crate::abi_type::{members_head_size, members_head_span, models_of, AbiType, AbiTypeView};
use crate::error::DecodeError;
use crate::value::{values_of, DecodedValue, ValueView};
use crate::word::{be_value, has_word, signed_value, two_pow_128, word_at, Magnitude};
use vstd::prelude::*;
use vstd::slice::{slice_subrange, slice_to_vec};
use vstd::utf8::{decode_utf8, valid_utf8};

verus! {

/// The text that `String::from_utf8_lossy` makes of `bytes` that are not valid UTF-8.
pub uninterp spec fn lossy_text(bytes: Seq<u8>) -> Seq<char>;

/// The text that `bytes` hold: the text that they encode where they are valid
/// UTF-8, else what can be read of them, with U+FFFD in place of what cannot.
pub open spec fn text_of(bytes: Seq<u8>) -> Seq<char> {
    if valid_utf8(bytes) {
        decode_utf8(bytes)
    } else {
        lossy_text(bytes)
    }
}

/// Calls `String::from_utf8_lossy`, which reads `bytes` as UTF-8 and puts U+FFFD in
/// place of what is not. Claimed: bytes that are valid UTF-8 give the text that they
/// encode, and of any other bytes the result depends on the bytes alone.
#[verifier::external_body]
fn text_from_bytes(bytes: &[u8]) -> (out: String)
    ensures
        out@ == (if valid_utf8(bytes@) {
            decode_utf8(bytes@)
        } else {
            lossy_text(bytes@)
        }),
{
    String::from_utf8_lossy(bytes).into_owned()
}

/// What one word means for a type: the value itself for a type that fills one word,
/// and for any other type a digest that stands for the value.
pub open spec fn decoded_word(ty: AbiTypeView, word: Seq<u8>) -> ValueView {
    match ty {
        AbiTypeView::Address => ValueView::Address(word.subrange(12, 32)),
        AbiTypeView::Bool => ValueView::Bool(be_value(word) != 0),
        AbiTypeView::Uint(bits) => ValueView::UnsignedInt { bits, magnitude: be_value(word) },
        AbiTypeView::Int(bits) => ValueView::SignedInt { bits, value: signed_value(word) },
        AbiTypeView::FixedBytes(len) => ValueView::Bytes {
            fixed: true,
            payload: word.subrange(0, len as int),
        },
        _ => ValueView::HashOnly(word),
    }
}

/// The payload that follows the length word at `start`.
pub open spec fn payload_at(data: Seq<u8>, start: int) -> Result<Seq<u8>, DecodeError> {
    if !has_word(data, start) {
        Err(DecodeError::TruncatedWord)
    } else if start + 32 + be_value(word_at(data, start)) > data.len() {
        Err(DecodeError::TruncatedWord)
    } else {
        Ok(data.subrange(start + 32, start + 32 + be_value(word_at(data, start))))
    }
}

/// The value of type `ty` whose head slot starts at `at`, where offsets count from `base`.
pub open spec fn decoded_at(ty: AbiTypeView, data: Seq<u8>, base: int, at: int) -> Result<
    ValueView,
    DecodeError,
>
    decreases ty, 1nat, 0nat,
{
    if ty.is_dynamic() {
        if !has_word(data, at) {
            Err(DecodeError::TruncatedWord)
        } else if base + be_value(word_at(data, at)) > data.len() {
            Err(DecodeError::OffsetOutOfBounds)
        } else {
            decoded_body(ty, data, base + be_value(word_at(data, at)))
        }
    } else {
        decoded_body(ty, data, at)
    }
}

/// The value of type `ty` whose encoding starts at `start`.
pub open spec fn decoded_body(ty: AbiTypeView, data: Seq<u8>, start: int) -> Result<
    ValueView,
    DecodeError,
>
    decreases ty, 0nat, 0nat,
{
    match ty {
        AbiTypeView::Bytes => match payload_at(data, start) {
            Ok(payload) => Ok(ValueView::Bytes { fixed: false, payload }),
            Err(e) => Err(e),
        },
        AbiTypeView::String => match payload_at(data, start) {
            Ok(payload) => Ok(ValueView::String(text_of(payload))),
            Err(e) => Err(e),
        },
        AbiTypeView::Array(element) => {
            if !has_word(data, start) {
                Err(DecodeError::TruncatedWord)
            } else {
                let count = be_value(word_at(data, start));
                if start + 32 + count * element.head_size() > data.len() {
                    Err(DecodeError::TruncatedWord)
                } else {
                    match decoded_items(*element, data, start + 32, count) {
                        Ok(items) => Ok(ValueView::Array { element_type: *element, items }),
                        Err(e) => Err(e),
                    }
                }
            }
        },
        AbiTypeView::FixedArray(element, count) => {
            if start < 0 || start + count * element.head_size() > data.len() {
                Err(DecodeError::TruncatedWord)
            } else {
                match decoded_items(*element, data, start, count) {
                    Ok(items) => Ok(ValueView::Array { element_type: *element, items }),
                    Err(e) => Err(e),
                }
            }
        },
        AbiTypeView::Tuple(members) => {
            if start < 0 || start + members_head_size(members, members.len()) > data.len() {
                Err(DecodeError::TruncatedWord)
            } else {
                match decoded_members(members, data, start, members.len()) {
                    Ok(values) => Ok(ValueView::Tuple(values)),
                    Err(e) => Err(e),
                }
            }
        },
        _ => {
            if !has_word(data, start) {
                Err(DecodeError::TruncatedWord)
            } else {
                Ok(decoded_word(ty, word_at(data, start)))
            }
        },
    }
}

/// The first `count` elements of an array whose heads start at `base`, or the error
/// of the first of them that has one.
pub open spec fn decoded_items(element: AbiTypeView, data: Seq<u8>, base: int, count: nat) -> Result<
    Seq<ValueView>,
    DecodeError,
>
    decreases element, 2nat, count,
{
    if count == 0 {
        Ok(Seq::empty())
    } else {
        match decoded_items(element, data, base, (count - 1) as nat) {
            Err(e) => Err(e),
            Ok(items) => match decoded_at(
                element,
                data,
                base,
                base + (count - 1) * element.head_size(),
            ) {
                Err(e) => Err(e),
                Ok(value) => Ok(items.push(value)),
            },
        }
    }
}

/// The first `count` members of a tuple whose heads start at `base`, or the error
/// of the first of them that has one.
pub open spec fn decoded_members(
    members: Seq<AbiTypeView>,
    data: Seq<u8>,
    base: int,
    count: nat,
) -> Result<Seq<ValueView>, DecodeError>
    decreases members, 0nat, count,
{
    if count == 0 || count > members.len() {
        Ok(Seq::empty())
    } else {
        match decoded_members(members, data, base, (count - 1) as nat) {
            Err(e) => Err(e),
            Ok(values) => match decoded_at(
                members[count - 1],
                data,
                base,
                base + members_head_size(members, (count - 1) as nat),
            ) {
                Err(e) => Err(e),
                Ok(value) => Ok(values.push(value)),
            },
        }
    }
}

/// The value that `bytes` hold of type `ty`: the type must be one that the decoder
/// knows, and its head starts at the first byte.
pub open spec fn decoded_value(ty: AbiTypeView, bytes: Seq<u8>) -> Result<ValueView, DecodeError> {
    if !ty.supported() {
        Err(DecodeError::UnsupportedType)
    } else {
        decoded_at(ty, bytes, 0, 0)
    }
}

/// What a topic holds of an indexed parameter of type `ty`: a digest where the type
/// has no fixed size or is an array, else the value itself.
pub open spec fn decoded_topic(ty: AbiTypeView, topic: Seq<u8>) -> Result<ValueView, DecodeError> {
    if !ty.supported() {
        Err(DecodeError::UnsupportedType)
    } else if !has_word(topic, 0) {
        Err(DecodeError::TruncatedWord)
    } else if ty.is_dynamic() || ty is FixedArray {
        Ok(ValueView::HashOnly(word_at(topic, 0)))
    } else {
        decoded_body(ty, topic, 0)
    }
}

/// Whether `out` is `expected`, the value taken by its model.
pub open spec fn agrees(out: Result<DecodedValue, DecodeError>, expected: Result<ValueView, DecodeError>) -> bool {
    match out {
        Ok(value) => expected == Ok::<ValueView, DecodeError>(value@),
        Err(e) => expected == Err::<ValueView, DecodeError>(e),
    }
}

/// Whether `out` is `expected`, each value taken by its model.
pub open spec fn all_agree(
    out: Result<Vec<DecodedValue>, DecodeError>,
    expected: Result<Seq<ValueView>, DecodeError>,
) -> bool {
    match out {
        Ok(values) => expected == Ok::<Seq<ValueView>, DecodeError>(values_of(values@)),
        Err(e) => expected == Err::<Seq<ValueView>, DecodeError>(e),
    }
}

/// Once an element has an error, every longer run of elements has that error.
proof fn lemma_items_error_stays(
    element: AbiTypeView,
    data: Seq<u8>,
    base: int,
    failed: nat,
    count: nat,
)
    requires
        failed <= count,
        decoded_items(element, data, base, failed) is Err,
    ensures
        decoded_items(element, data, base, count) == decoded_items(element, data, base, failed),
    decreases count,
{
    if failed < count {
        lemma_items_error_stays(element, data, base, failed, (count - 1) as nat);
    }
}

/// Once a member has an error, every longer run of members has that error.
proof fn lemma_members_error_stays(
    members: Seq<AbiTypeView>,
    data: Seq<u8>,
    base: int,
    failed: nat,
    count: nat,
)
    requires
        failed <= count <= members.len(),
        decoded_members(members, data, base, failed) is Err,
    ensures
        decoded_members(members, data, base, count) == decoded_members(members, data, base, failed),
    decreases count,
{
    if failed < count {
        lemma_members_error_stays(members, data, base, failed, (count - 1) as nat);
    }
}

/// The upper half of the least word that stands for a negative number.
pub const SIGN_BIT: u128 = 0x8000_0000_0000_0000_0000_0000_0000_0000;

/// Copies the 20 bytes of `data` that start at `at`.
fn copy_address(data: &[u8], at: usize) -> (out: [u8; 20])
    requires
        at + 20 <= data@.len(),
    ensures
        out@ == data@.subrange(at as int, at + 20),
{
    let len = data.len();
    let mut out = [0u8;20];
    let mut i: usize = 0;
    while i < 20
        invariant
            i <= 20,
            len == data@.len(),
            at + 20 <= len,
            forall|j: int| 0 <= j < i ==> out@[j] == data@[at + j],
        decreases 20 - i,
    {
        out[i] = data[at + i];
        i += 1;
    }
    assert(out@ =~= data@.subrange(at as int, at + 20));
    out
}

/// Copies the word of `data` that starts at `at`.
fn copy_word(data: &[u8], at: usize) -> (out: [u8; 32])
    requires
        has_word(data@, at as int),
    ensures
        out@ == word_at(data@, at as int),
{
    let len = data.len();
    let mut out = [0u8;32];
    let mut i: usize = 0;
    while i < 32
        invariant
            i <= 32,
            len == data@.len(),
            at + 32 <= len,
            forall|j: int| 0 <= j < i ==> out@[j] == data@[at + j],
        decreases 32 - i,
    {
        out[i] = data[at + i];
        i += 1;
    }
    assert(out@ =~= word_at(data@, at as int));
    out
}

/// Copies the bytes of `data` from `from` up to `to`.
fn copy_bytes(data: &[u8], from: usize, to: usize) -> (out: Vec<u8>)
    requires
        from <= to <= data@.len(),
    ensures
        out@ == data@.subrange(from as int, to as int),
{
    slice_to_vec(slice_subrange(data, from, to))
}

/// Reads the word of `data` at `at` for a type that fills one word; for any other
/// type, takes the word as a digest.
fn decode_word(ty: &AbiType, data: &[u8], at: usize) -> (out: DecodedValue)
    requires
        ty@.supported(),
        has_word(data@, at as int),
    ensures
        out@ == decoded_word(ty@, word_at(data@, at as int)),
{
    let len = data.len();
    let ghost word = word_at(data@, at as int);
    match ty {
        AbiType::Address => {
            let bytes = copy_address(data, at + 12);
            assert(bytes@ =~= word.subrange(12, 32));
            DecodedValue::Address(bytes)
        },
        AbiType::Bool => {
            let raw = Magnitude::from_word(data, at);
            DecodedValue::Bool(!raw.is_zero())
        },
        AbiType::Uint(bits) => {
            let raw = Magnitude::from_word(data, at);
            DecodedValue::UnsignedInt { bits: *bits, magnitude: raw }
        },
        AbiType::Int(bits) => {
            let raw = Magnitude::from_word(data, at);
            proof {
                let h = raw.high as int;
                let t = two_pow_128() as int;
                if raw.high >= SIGN_BIT {
                    assert(h * t >= SIGN_BIT * t) by (nonlinear_arith)
                        requires
                            h >= SIGN_BIT,
                            t >= 0,
                    ;
                } else {
                    assert((h + 1) * t <= SIGN_BIT * t) by (nonlinear_arith)
                        requires
                            h + 1 <= SIGN_BIT,
                            t >= 0,
                    ;
                    assert((h + 1) * t == h * t + t) by (nonlinear_arith);
                }
            }
            if raw.high >= SIGN_BIT {
                DecodedValue::SignedInt { bits: *bits, negative: true, magnitude: raw.negated() }
            } else {
                DecodedValue::SignedInt { bits: *bits, negative: false, magnitude: raw }
            }
        },
        AbiType::FixedBytes(size) => {
            let payload = copy_bytes(data, at, at + *size as usize);
            assert(payload@ =~= word.subrange(0, *size as int));
            DecodedValue::Bytes { fixed: true, payload }
        },
        _ => DecodedValue::HashOnly(copy_word(data, at)),
    }
}

/// Reads the length word at `start`, and copies the payload that follows it.
fn read_payload(data: &[u8], start: usize) -> (out: Result<Vec<u8>, DecodeError>)
    ensures
        match out {
            Ok(payload) => payload_at(data@, start as int) == Ok::<Seq<u8>, DecodeError>(payload@),
            Err(e) => payload_at(data@, start as int) == Err::<Seq<u8>, DecodeError>(e),
        },
{
    let len = data.len();
    if start > len || len - start < 32 {
        return Err(DecodeError::TruncatedWord);
    }
    match Magnitude::from_word(data, start).to_usize() {
        None => Err(DecodeError::TruncatedWord),
        Some(size) => {
            if size > len - start - 32 {
                Err(DecodeError::TruncatedWord)
            } else {
                Ok(copy_bytes(data, start + 32, start + 32 + size))
            }
        },
    }
}

/// Decodes the value of type `ty` whose head slot starts at `at`, where offsets
/// count from `base`.
pub(crate) fn decode_head(ty: &AbiType, data: &[u8], base: usize, at: usize) -> (out: Result<
    DecodedValue,
    DecodeError,
>)
    requires
        ty@.supported(),
    ensures
        agrees(out, decoded_at(ty@, data@, base as int, at as int)),
    decreases ty, 1nat,
{
    if ty.is_dynamic() {
        let len = data.len();
        if at > len || len - at < 32 {
            return Err(DecodeError::TruncatedWord);
        }
        let start = match Magnitude::from_word(data, at).to_usize() {
            None => None,
            Some(offset) => base.checked_add(offset),
        };
        match start {
            None => Err(DecodeError::OffsetOutOfBounds),
            Some(start) => {
                if start > len {
                    Err(DecodeError::OffsetOutOfBounds)
                } else {
                    decode_body(ty, data, start)
                }
            },
        }
    } else {
        decode_body(ty, data, at)
    }
}

/// Decodes the value of type `ty` whose encoding starts at `start`.
fn decode_body(ty: &AbiType, data: &[u8], start: usize) -> (out: Result<
    DecodedValue,
    DecodeError,
>)
    requires
        ty@.supported(),
    ensures
        agrees(out, decoded_body(ty@, data@, start as int)),
    decreases ty, 0nat,
{
    let len = data.len();
    match ty {
        AbiType::Bytes => match read_payload(data, start) {
            Ok(payload) => Ok(DecodedValue::Bytes { fixed: false, payload }),
            Err(e) => Err(e),
        },
        AbiType::String => match read_payload(data, start) {
            Ok(payload) => Ok(DecodedValue::String(text_from_bytes(payload.as_slice()))),
            Err(e) => Err(e),
        },
        AbiType::Array(element) => {
            if start > len || len - start < 32 {
                return Err(DecodeError::TruncatedWord);
            }
            proof {
                crate::abi_type::lemma_supported_head_size(element@);
            }
            let ghost count_value = be_value(word_at(data@, start as int));
            let ghost each_value = element@.head_size();
            let count = match Magnitude::from_word(data, start).to_usize() {
                None => {
                    assert(count_value * each_value > data@.len()) by (nonlinear_arith)
                        requires
                            count_value > data@.len(),
                            each_value >= 32,
                    ;
                    return Err(DecodeError::TruncatedWord);
                },
                Some(count) => count,
            };
            match decode_run(element, data, start + 32, count) {
                Ok(items) => {
                    let out = DecodedValue::Array { element_type: element.duplicate(), items };
                    assert(out@->Array_items =~= values_of(items@));
                    Ok(out)
                },
                Err(e) => Err(e),
            }
        },
        AbiType::FixedArray(element, count) => {
            if start > len {
                assert(*count * element@.head_size() >= 0) by (nonlinear_arith);
                return Err(DecodeError::TruncatedWord);
            }
            match decode_run(element, data, start, *count) {
                Ok(items) => {
                    let out = DecodedValue::Array { element_type: element.duplicate(), items };
                    assert(out@->Array_items =~= values_of(items@));
                    Ok(out)
                },
                Err(e) => Err(e),
            }
        },
        AbiType::Tuple(members) => {
            assert(ty@->Tuple_0 =~= models_of(members@));
            assert forall|i: int| 0 <= i < members@.len() implies (#[trigger] members@[i])@.supported() by {
                assert(ty@->Tuple_0[i].supported());
            }
            if start > len {
                return Err(DecodeError::TruncatedWord);
            }
            match decode_members(members, data, start) {
                Ok(values) => {
                    let out = DecodedValue::Tuple(values);
                    assert(out@->Tuple_0 =~= values_of(values@));
                    Ok(out)
                },
                Err(e) => Err(e),
            }
        },
        _ => {
            if start > len || len - start < 32 {
                Err(DecodeError::TruncatedWord)
            } else {
                Ok(decode_word(ty, data, start))
            }
        },
    }
}

/// Decodes `count` elements of one type whose heads start at `base`, after making
/// sure that the bytes hold all their heads.
fn decode_run(element: &AbiType, data: &[u8], base: usize, count: usize) -> (out: Result<
    Vec<DecodedValue>,
    DecodeError,
>)
    requires
        element@.supported(),
        base <= data@.len(),
    ensures
        base + count * element@.head_size() > data@.len() ==> out == Err::<
            Vec<DecodedValue>,
            DecodeError,
        >(DecodeError::TruncatedWord),
        base + count * element@.head_size() <= data@.len() ==> all_agree(
            out,
            decoded_items(element@, data@, base as int, count as nat),
        ),
    decreases element, 3nat,
{
    let len = data.len();
    let ghost each_value = element@.head_size();
    if count == 0 {
        assert(0 * each_value == 0);
        let items: Vec<DecodedValue> = Vec::new();
        assert(values_of(items@) =~= Seq::<ValueView>::empty());
        return Ok(items);
    }
    let each = match element.head_size() {
        None => {
            assert(count * each_value > usize::MAX) by (nonlinear_arith)
                requires
                    count >= 1,
                    each_value > usize::MAX,
            ;
            return Err(DecodeError::TruncatedWord);
        },
        Some(each) => each,
    };
    match count.checked_mul(each) {
        None => Err(DecodeError::TruncatedWord),
        Some(span) => {
            if span > len - base {
                Err(DecodeError::TruncatedWord)
            } else {
                decode_items(element, data, base, count, each)
            }
        },
    }
}

/// Decodes `count` elements of one type whose heads start at `base` and take `each`
/// bytes apiece.
fn decode_items(element: &AbiType, data: &[u8], base: usize, count: usize, each: usize) -> (out:
    Result<Vec<DecodedValue>, DecodeError>)
    requires
        element@.supported(),
        each == element@.head_size(),
        base + count * each <= data@.len(),
    ensures
        all_agree(out, decoded_items(element@, data@, base as int, count as nat)),
    decreases element, 2nat,
{
    let len = data.len();
    let mut items: Vec<DecodedValue> = Vec::new();
    let mut at: usize = base;
    let mut i: usize = 0;
    assert(values_of(items@) =~= Seq::<ValueView>::empty());
    assert(0 * each == 0);
    while i < count
        invariant
            i <= count,
            len == data@.len(),
            element@.supported(),
            each == element@.head_size(),
            base + count * each <= data@.len(),
            at == base + i * each,
            decoded_items(element@, data@, base as int, i as nat) == Ok::<
                Seq<ValueView>,
                DecodeError,
            >(values_of(items@)),
        decreases count - i,
    {
        proof {
            assert((i + 1) * each == i * each + each) by (nonlinear_arith);
            assert((i + 1) * each <= count * each) by (nonlinear_arith)
                requires
                    i + 1 <= count,
                    each >= 0,
            ;
        }
        match decode_head(element, data, base, at) {
            Err(e) => {
                proof {
                    lemma_items_error_stays(element@, data@, base as int, (i + 1) as nat, count as nat);
                }
                return Err(e);
            },
            Ok(value) => {
                let ghost before = values_of(items@);
                items.push(value);
                assert(values_of(items@) =~= before.push(value@));
            },
        }
        at = at + each;
        i += 1;
    }
    Ok(items)
}

/// Decodes the members of a tuple whose heads start at `base`, after making sure
/// that the bytes hold all their heads.
fn decode_members(members: &Vec<AbiType>, data: &[u8], base: usize) -> (out: Result<
    Vec<DecodedValue>,
    DecodeError,
>)
    requires
        forall|i: int| 0 <= i < members@.len() ==> (#[trigger] members@[i])@.supported(),
        base <= data@.len(),
    ensures
        base + members_head_size(models_of(members@), members@.len()) > data@.len() ==> out == Err::<
            Vec<DecodedValue>,
            DecodeError,
        >(DecodeError::TruncatedWord),
        base + members_head_size(models_of(members@), members@.len()) <= data@.len() ==> all_agree(
            out,
            decoded_members(models_of(members@), data@, base as int, members@.len()),
        ),
    decreases members, 0nat,
{
    let len = data.len();
    let ghost models = models_of(members@);
    match members_head_span(members) {
        None => {
            return Err(DecodeError::TruncatedWord);
        },
        Some(span) => {
            if span > len - base {
                return Err(DecodeError::TruncatedWord);
            }
        },
    }
    let mut values: Vec<DecodedValue> = Vec::new();
    let mut at: usize = base;
    let mut i: usize = 0;
    assert(values_of(values@) =~= Seq::<ValueView>::empty());
    while i < members.len()
        invariant
            i <= members.len(),
            len == data@.len(),
            models == models_of(members@),
            forall|j: int| 0 <= j < members@.len() ==> (#[trigger] members@[j])@.supported(),
            base + members_head_size(models, members@.len()) <= data@.len(),
            at == base + members_head_size(models, i as nat),
            decoded_members(models, data@, base as int, i as nat) == Ok::<
                Seq<ValueView>,
                DecodeError,
            >(values_of(values@)),
        decreases members.len() - i,
    {
        proof {
            vstd::std_specs::vec::axiom_vec_index_decreases(*members, i as int);
            crate::abi_type::lemma_members_head_size_monotonic(
                models,
                (i + 1) as nat,
                members@.len(),
            );
            assert(members_head_size(models, (i + 1) as nat) == members_head_size(models, i as nat)
                + models[i as int].head_size());
            assert(models[i as int] == members@[i as int]@);
        }
        match decode_head(&members[i], data, base, at) {
            Err(e) => {
                proof {
                    lemma_members_error_stays(
                        models,
                        data@,
                        base as int,
                        (i + 1) as nat,
                        members@.len(),
                    );
                }
                return Err(e);
            },
            Ok(value) => {
                let ghost before = values_of(values@);
                values.push(value);
                assert(values_of(values@) =~= before.push(value@));
            },
        }
        match members[i].head_size() {
            None => {
                return Err(DecodeError::TruncatedWord);
            },
            Some(size) => {
                at = at + size;
            },
        }
        i += 1;
    }
    Ok(values)
}

/// Decodes the value that `bytes` hold of type `ty`.
pub fn decode_value(ty: &AbiType, bytes: &[u8]) -> (out: Result<DecodedValue, DecodeError>)
    ensures
        agrees(out, decoded_value(ty@, bytes@)),
{
    decode_at(ty, bytes, 0, 0)
}

/// The value of type `ty` whose head slot starts at `at` in `data`, where offsets
/// count from `base`: the type must be one that the decoder knows.
pub open spec fn decoded_value_at(ty: AbiTypeView, data: Seq<u8>, base: int, at: int) -> Result<
    ValueView,
    DecodeError,
> {
    if !ty.supported() {
        Err(DecodeError::UnsupportedType)
    } else {
        decoded_at(ty, data, base, at)
    }
}

/// Decodes the value of type `ty` whose head slot starts at `at` in `data`, where
/// offsets count from `base`.
pub fn decode_at(ty: &AbiType, data: &[u8], base: usize, at: usize) -> (out: Result<
    DecodedValue,
    DecodeError,
>)
    ensures
        agrees(out, decoded_value_at(ty@, data@, base as int, at as int)),
{
    if !ty.is_supported() {
        Err(DecodeError::UnsupportedType)
    } else {
        decode_head(ty, data, base, at)
    }
}

/// The value that `bytes` hold of the type that `descriptor` names.
pub open spec fn decoded(bytes: Seq<u8>, descriptor: Seq<char>) -> Result<ValueView, DecodeError> {
    match crate::descriptor::parsed_descriptor(descriptor) {
        None => Err(DecodeError::UnsupportedType),
        Some(ty) => decoded_at(ty, bytes, 0, 0),
    }
}

/// Decodes the value that `raw_bytes` hold of the type that `abi_type` names.
pub fn decode(raw_bytes: &[u8], abi_type: &str) -> (out: Result<DecodedValue, DecodeError>)
    ensures
        agrees(out, decoded(raw_bytes@, abi_type@)),
{
    match AbiType::parse(abi_type) {
        Err(e) => Err(e),
        Ok(ty) => decode_head(&ty, raw_bytes, 0, 0),
    }
}

/// Decodes what a topic holds of an indexed parameter of type `ty`.
pub fn decode_topic(ty: &AbiType, topic: &[u8]) -> (out: Result<DecodedValue, DecodeError>)
    ensures
        agrees(out, decoded_topic(ty@, topic@)),
{
    if !ty.is_supported() {
        return Err(DecodeError::UnsupportedType);
    }
    if topic.len() < 32 {
        return Err(DecodeError::TruncatedWord);
    }
    let is_fixed_array = match ty {
        AbiType::FixedArray(_, _) => true,
        _ => false,
    };
    if ty.is_dynamic() || is_fixed_array {
        Ok(DecodedValue::HashOnly(copy_word(topic, 0)))
    } else {
        decode_body(ty, topic, 0)
    }
}

} // verus!
