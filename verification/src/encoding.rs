//! The encoding that the decoder reads, and that decoding it gives the value back.
//!
//! A list of values is encoded as their heads, one after another, followed by their
//! tails. A value of a type with a fixed size is its own head and has no tail. Of
//! any other value the head is the offset of its tail from the first head.

use crate::abi_type::{members_head_size, AbiTypeView};
use crate::error::DecodeError;
use crate::param::{
    decoded_at, decoded_body, decoded_items, decoded_members, decoded_value, decoded_word,
    payload_at,
};
use crate::text::{lemma_occurs_concat, lemma_occurs_is_part, lemma_occurs_split, lemma_occurs_within, occurs};
use crate::value::ValueView;
use crate::word::{
    be_bytes, lemma_be_bytes_len, lemma_be_bytes_value, lemma_pow256_values, two_pow_255,
    two_pow_256, word_at,
};
use vstd::prelude::*;
use vstd::utf8::encode_utf8;

verus! {

/// `len` zero bytes.
pub open spec fn zeros(len: nat) -> Seq<u8> {
    Seq::new(len, |i: int| 0u8)
}

/// The word that encodes a value of a type that fills one word: a number in base
/// 256, a negative one in two's complement; an address after twelve zero bytes;
/// fixed bytes before as many zero bytes as fill the word; a truth value as 0 or 1.
pub open spec fn encoded_word(value: ValueView) -> Seq<u8> {
    match value {
        ValueView::Address(bytes) => zeros(12) + bytes,
        ValueView::UnsignedInt { bits, magnitude } => be_bytes(magnitude, 32),
        ValueView::SignedInt { bits, value } => if value < 0 {
            be_bytes((value + two_pow_256()) as nat, 32)
        } else {
            be_bytes(value as nat, 32)
        },
        ValueView::Bool(b) => be_bytes(
            if b {
                1
            } else {
                0
            },
            32,
        ),
        ValueView::Bytes { fixed, payload } => payload + zeros((32 - payload.len()) as nat),
        _ => Seq::empty(),
    }
}

/// Whether `value` is a value of the type `ty`, for a type that fills one word.
pub open spec fn is_value_of(value: ValueView, ty: AbiTypeView) -> bool {
    match ty {
        AbiTypeView::Address => value matches ValueView::Address(bytes) && bytes.len() == 20,
        AbiTypeView::Bool => value is Bool,
        AbiTypeView::Uint(bits) => value matches ValueView::UnsignedInt { bits: b, magnitude } && b
            == bits && magnitude < two_pow_256(),
        AbiTypeView::Int(bits) => value matches ValueView::SignedInt { bits: b, value: v } && b == bits
            && -two_pow_255() <= v < two_pow_255(),
        AbiTypeView::FixedBytes(len) => value matches ValueView::Bytes { fixed, payload } && fixed
            && payload.len() == len,
        _ => false,
    }
}

/// Encoding a value of a type that fills one word, and decoding the word, gives the
/// value back: so for `uint256`, `address`, `bool` and `bytes32`, and for every
/// other width of integers and fixed bytes.
pub proof fn law_word_round_trip(ty: AbiTypeView, value: ValueView)
    requires
        ty.supported(),
        is_value_of(value, ty),
    ensures
        encoded_word(value).len() == 32,
        decoded_value(ty, encoded_word(value)) == Ok::<ValueView, DecodeError>(value),
{
    lemma_pow256_values();
    let word = encoded_word(value);
    match value {
        ValueView::Address(bytes) => {
            assert(word.subrange(0, 32) =~= word);
            assert(word.subrange(12, 32) =~= bytes);
        },
        ValueView::UnsignedInt { bits, magnitude } => {
            lemma_be_bytes_value(magnitude, 32);
            assert(word.subrange(0, 32) =~= word);
        },
        ValueView::SignedInt { bits, value: v } => {
            if v < 0 {
                lemma_be_bytes_value((v + two_pow_256()) as nat, 32);
            } else {
                lemma_be_bytes_value(v as nat, 32);
            }
            assert(word.subrange(0, 32) =~= word);
        },
        ValueView::Bool(b) => {
            lemma_be_bytes_value(
                if b {
                    1
                } else {
                    0
                },
                32,
            );
            assert(word.subrange(0, 32) =~= word);
        },
        ValueView::Bytes { fixed, payload } => {
            assert(word.subrange(0, 32) =~= word);
            assert(word.subrange(0, payload.len() as int) =~= payload);
        },
        _ => {},
    }
}

/// The zero bytes that fill a payload of `len` bytes up to a whole number of words.
pub open spec fn padding(len: nat) -> Seq<u8> {
    zeros(((32 - len % 32) % 32) as nat)
}

/// Whether `value` is a value of the type `ty`.
pub open spec fn has_type(value: ValueView, ty: AbiTypeView) -> bool
    decreases ty,
{
    match ty {
        AbiTypeView::Bytes => value matches ValueView::Bytes { fixed, payload } && !fixed,
        AbiTypeView::String => value is String,
        AbiTypeView::Array(element) => {
            &&& value matches ValueView::Array { element_type, items }
            &&& element_type == *element
            &&& forall|i: int| 0 <= i < items.len() ==> has_type(#[trigger] items[i], *element)
        },
        AbiTypeView::FixedArray(element, count) => {
            &&& value matches ValueView::Array { element_type, items }
            &&& element_type == *element
            &&& items.len() == count
            &&& forall|i: int| 0 <= i < items.len() ==> has_type(#[trigger] items[i], *element)
        },
        AbiTypeView::Tuple(members) => {
            &&& value matches ValueView::Tuple(values)
            &&& values.len() == members.len()
            &&& forall|i: int|
                0 <= i < members.len() ==> has_type(#[trigger] values[i], members[i])
        },
        _ => is_value_of(value, ty),
    }
}

/// The encoding of a payload: its length, the payload, and the padding.
pub open spec fn encoded_bytes(payload: Seq<u8>) -> Seq<u8> {
    be_bytes(payload.len(), 32) + payload + padding(payload.len())
}

/// The encoding of `value` as a value of the type `ty`.
pub open spec fn encoded(ty: AbiTypeView, value: ValueView) -> Seq<u8>
    decreases ty, 0nat, 0nat,
{
    match ty {
        AbiTypeView::Bytes => encoded_bytes(value->Bytes_payload),
        AbiTypeView::String => encoded_bytes(encode_utf8(value->String_0)),
        AbiTypeView::Array(element) => be_bytes(value->Array_items.len(), 32) + item_heads(
            *element,
            value->Array_items,
            value->Array_items.len(),
        ) + item_tails(*element, value->Array_items, value->Array_items.len()),
        AbiTypeView::FixedArray(element, count) => item_heads(
            *element,
            value->Array_items,
            value->Array_items.len(),
        ) + item_tails(*element, value->Array_items, value->Array_items.len()),
        AbiTypeView::Tuple(members) => member_heads(members, value->Tuple_0, members.len())
            + member_tails(members, value->Tuple_0, members.len()),
        _ => encoded_word(value),
    }
}

/// The tails of the first `count` elements of an array.
pub open spec fn item_tails(element: AbiTypeView, items: Seq<ValueView>, count: nat) -> Seq<u8>
    decreases element, 1nat, count,
{
    if count == 0 || count > items.len() {
        Seq::empty()
    } else if element.is_dynamic() {
        item_tails(element, items, (count - 1) as nat) + encoded(element, items[count - 1])
    } else {
        item_tails(element, items, (count - 1) as nat)
    }
}

/// The heads of the first `count` elements of an array.
pub open spec fn item_heads(element: AbiTypeView, items: Seq<ValueView>, count: nat) -> Seq<u8>
    decreases element, 2nat, count,
{
    if count == 0 || count > items.len() {
        Seq::empty()
    } else if element.is_dynamic() {
        item_heads(element, items, (count - 1) as nat) + be_bytes(
            items.len() * element.head_size() + item_tails(
                element,
                items,
                (count - 1) as nat,
            ).len(),
            32,
        )
    } else {
        item_heads(element, items, (count - 1) as nat) + encoded(element, items[count - 1])
    }
}

/// The tails of the first `count` members of a tuple.
pub open spec fn member_tails(members: Seq<AbiTypeView>, values: Seq<ValueView>, count: nat) -> Seq<
    u8,
>
    decreases members, 0nat, count,
{
    if count == 0 || count > members.len() {
        Seq::empty()
    } else if members[count - 1].is_dynamic() {
        member_tails(members, values, (count - 1) as nat) + encoded(
            members[count - 1],
            values[count - 1],
        )
    } else {
        member_tails(members, values, (count - 1) as nat)
    }
}

/// The heads of the first `count` members of a tuple.
pub open spec fn member_heads(members: Seq<AbiTypeView>, values: Seq<ValueView>, count: nat) -> Seq<
    u8,
>
    decreases members, 1nat, count,
{
    if count == 0 || count > members.len() {
        Seq::empty()
    } else if members[count - 1].is_dynamic() {
        member_heads(members, values, (count - 1) as nat) + be_bytes(
            members_head_size(members, members.len()) + member_tails(
                members,
                values,
                (count - 1) as nat,
            ).len(),
            32,
        )
    } else {
        member_heads(members, values, (count - 1) as nat) + encoded(
            members[count - 1],
            values[count - 1],
        )
    }
}

/// Whether each of `items` is a value of the type `element`.
pub open spec fn all_have_type(items: Seq<ValueView>, element: AbiTypeView) -> bool {
    forall|i: int| 0 <= i < items.len() ==> has_type(#[trigger] items[i], element)
}

/// Whether `values` are values of the types `members`, one of each.
pub open spec fn have_types(values: Seq<ValueView>, members: Seq<AbiTypeView>) -> bool {
    &&& values.len() == members.len()
    &&& forall|i: int| 0 <= i < members.len() ==> has_type(#[trigger] values[i], members[i])
}

/// Whether the decoder knows each of `members`.
pub open spec fn all_supported(members: Seq<AbiTypeView>) -> bool {
    forall|i: int| 0 <= i < members.len() ==> (#[trigger] members[i]).supported()
}

/// The encoding of a value of a type with a fixed size is as long as its head.
pub proof fn lemma_encoded_len(ty: AbiTypeView, value: ValueView)
    requires
        ty.supported(),
        has_type(value, ty),
        !ty.is_dynamic(),
    ensures
        encoded(ty, value).len() == ty.head_size(),
    decreases ty, 0nat, 0nat,
{
    match ty {
        AbiTypeView::FixedArray(element, count) => {
            let items = value->Array_items;
            lemma_item_heads_len(*element, items, count);
            lemma_item_tails_static(*element, items, count);
        },
        AbiTypeView::Tuple(members) => {
            let values = value->Tuple_0;
            assert forall|i: int| 0 <= i < members.len() implies !(#[trigger] members[i]).is_dynamic() by {}
            lemma_member_heads_len(members, values, members.len());
            lemma_member_tails_static(members, values, members.len());
        },
        _ => {
            law_word_round_trip(ty, value);
        },
    }
}

/// The heads of `count` elements take `count` times the room of one.
pub proof fn lemma_item_heads_len(element: AbiTypeView, items: Seq<ValueView>, count: nat)
    requires
        element.supported(),
        all_have_type(items, element),
        count <= items.len(),
    ensures
        item_heads(element, items, count).len() == count * element.head_size(),
    decreases element, 2nat, count,
{
    if count > 0 {
        lemma_item_heads_len(element, items, (count - 1) as nat);
        if element.is_dynamic() {
            lemma_be_bytes_len(
                items.len() * element.head_size() + item_tails(
                    element,
                    items,
                    (count - 1) as nat,
                ).len(),
                32,
            );
        } else {
            lemma_encoded_len(element, items[count - 1]);
        }
        assert(count * element.head_size() == (count - 1) * element.head_size()
            + element.head_size()) by (nonlinear_arith);
    } else {
        assert(0 * element.head_size() == 0);
    }
}

/// Elements of a type with a fixed size have no tails.
pub proof fn lemma_item_tails_static(element: AbiTypeView, items: Seq<ValueView>, count: nat)
    requires
        !element.is_dynamic(),
    ensures
        item_tails(element, items, count) == Seq::<u8>::empty(),
    decreases count,
{
    if count > 0 && count <= items.len() {
        lemma_item_tails_static(element, items, (count - 1) as nat);
    }
}

/// The heads of the first `count` members take the room that their types say.
pub proof fn lemma_member_heads_len(members: Seq<AbiTypeView>, values: Seq<ValueView>, count: nat)
    requires
        all_supported(members),
        have_types(values, members),
        count <= members.len(),
    ensures
        member_heads(members, values, count).len() == members_head_size(members, count),
    decreases members, 1nat, count,
{
    if count > 0 {
        lemma_member_heads_len(members, values, (count - 1) as nat);
        assert(members[count - 1].supported());
        assert(has_type(values[count - 1], members[count - 1]));
        if members[count - 1].is_dynamic() {
            lemma_be_bytes_len(
                members_head_size(members, members.len()) + member_tails(
                    members,
                    values,
                    (count - 1) as nat,
                ).len(),
                32,
            );
            assert(member_heads(members, values, count).len() == member_heads(
                members,
                values,
                (count - 1) as nat,
            ).len() + 32);
            assert(members[count - 1].head_size() == 32);
        } else {
            lemma_encoded_len(members[count - 1], values[count - 1]);
            assert(member_heads(members, values, count).len() == member_heads(
                members,
                values,
                (count - 1) as nat,
            ).len() + members[count - 1].head_size());
        }
        assert(members_head_size(members, count) == members_head_size(
            members,
            (count - 1) as nat,
        ) + members[count - 1].head_size());
    }
}

/// Members of types with a fixed size have no tails.
pub proof fn lemma_member_tails_static(members: Seq<AbiTypeView>, values: Seq<ValueView>, count: nat)
    requires
        forall|i: int| 0 <= i < members.len() ==> !(#[trigger] members[i]).is_dynamic(),
    ensures
        member_tails(members, values, count) == Seq::<u8>::empty(),
    decreases count,
{
    if count > 0 && count <= members.len() {
        lemma_member_tails_static(members, values, (count - 1) as nat);
    }
}

/// The head of the element `k` of an array.
pub open spec fn item_head(element: AbiTypeView, items: Seq<ValueView>, k: int) -> Seq<u8> {
    if element.is_dynamic() {
        be_bytes(
            items.len() * element.head_size() + item_tails(element, items, k as nat).len(),
            32,
        )
    } else {
        encoded(element, items[k])
    }
}

/// The head of the member `k` of a tuple.
pub open spec fn member_head(members: Seq<AbiTypeView>, values: Seq<ValueView>, k: int) -> Seq<u8> {
    if members[k].is_dynamic() {
        be_bytes(
            members_head_size(members, members.len()) + member_tails(members, values, k as nat).len(),
            32,
        )
    } else {
        encoded(members[k], values[k])
    }
}

proof fn lemma_item_head_place(element: AbiTypeView, items: Seq<ValueView>, k: nat, n: nat)
    requires
        k < n <= items.len(),
    ensures
        occurs(
            item_heads(element, items, n),
            item_heads(element, items, k).len() as int,
            item_head(element, items, k as int),
        ),
    decreases n,
{
    let before = item_heads(element, items, (n - 1) as nat);
    let last = item_head(element, items, n - 1);
    assert(item_heads(element, items, n) == before + last);
    lemma_occurs_concat(before, last);
    if k + 1 < n {
        lemma_item_head_place(element, items, k, (n - 1) as nat);
        lemma_occurs_within(
            item_heads(element, items, n),
            0,
            before,
            item_heads(element, items, k).len() as int,
            item_head(element, items, k as int),
        );
    }
}

proof fn lemma_item_tail_place(element: AbiTypeView, items: Seq<ValueView>, k: nat, n: nat)
    requires
        element.is_dynamic(),
        k < n <= items.len(),
    ensures
        occurs(
            item_tails(element, items, n),
            item_tails(element, items, k).len() as int,
            encoded(element, items[k as int]),
        ),
    decreases n,
{
    let before = item_tails(element, items, (n - 1) as nat);
    let last = encoded(element, items[n - 1]);
    assert(item_tails(element, items, n) == before + last);
    lemma_occurs_concat(before, last);
    if k + 1 < n {
        lemma_item_tail_place(element, items, k, (n - 1) as nat);
        lemma_occurs_within(
            item_tails(element, items, n),
            0,
            before,
            item_tails(element, items, k).len() as int,
            encoded(element, items[k as int]),
        );
    }
}

proof fn lemma_member_head_place(members: Seq<AbiTypeView>, values: Seq<ValueView>, k: nat, n: nat)
    requires
        k < n <= members.len(),
    ensures
        occurs(
            member_heads(members, values, n),
            member_heads(members, values, k).len() as int,
            member_head(members, values, k as int),
        ),
    decreases n,
{
    let before = member_heads(members, values, (n - 1) as nat);
    let last = member_head(members, values, n - 1);
    assert(member_heads(members, values, n) == before + last);
    lemma_occurs_concat(before, last);
    if k + 1 < n {
        lemma_member_head_place(members, values, k, (n - 1) as nat);
        lemma_occurs_within(
            member_heads(members, values, n),
            0,
            before,
            member_heads(members, values, k).len() as int,
            member_head(members, values, k as int),
        );
    }
}

proof fn lemma_member_tail_place(members: Seq<AbiTypeView>, values: Seq<ValueView>, k: nat, n: nat)
    requires
        members[k as int].is_dynamic(),
        k < n <= members.len(),
    ensures
        occurs(
            member_tails(members, values, n),
            member_tails(members, values, k).len() as int,
            encoded(members[k as int], values[k as int]),
        ),
    decreases n,
{
    let before = member_tails(members, values, (n - 1) as nat);
    if k + 1 < n {
        lemma_member_tail_place(members, values, k, (n - 1) as nat);
        if members[n - 1].is_dynamic() {
            let last = encoded(members[n - 1], values[n - 1]);
            assert(member_tails(members, values, n) == before + last);
            lemma_occurs_concat(before, last);
            lemma_occurs_within(
                member_tails(members, values, n),
                0,
                before,
                member_tails(members, values, k).len() as int,
                encoded(members[k as int], values[k as int]),
            );
        }
    } else {
        let last = encoded(members[n - 1], values[n - 1]);
        assert(member_tails(members, values, n) == before + last);
        lemma_occurs_concat(before, last);
    }
}

/// Where the encoding of a value stands, decoding gives the value.
pub proof fn lemma_decoded_body(ty: AbiTypeView, value: ValueView, data: Seq<u8>, start: int)
    requires
        ty.supported(),
        has_type(value, ty),
        data.len() < two_pow_256(),
        occurs(data, start, encoded(ty, value)),
    ensures
        decoded_body(ty, data, start) == Ok::<ValueView, DecodeError>(value),
    decreases ty, 0nat, 0nat,
{
    lemma_pow256_values();
    match ty {
        AbiTypeView::Bytes => {
            lemma_payload_stands(value->Bytes_payload, data, start);
        },
        AbiTypeView::String => {
            let text = value->String_0;
            lemma_payload_stands(encode_utf8(text), data, start);
            vstd::utf8::encode_utf8_valid_utf8(text);
            vstd::utf8::encode_utf8_decode_utf8(text);
        },
        AbiTypeView::Array(element) => {
            let items = value->Array_items;
            let n = items.len();
            let count = be_bytes(n, 32);
            let heads = item_heads(*element, items, n);
            let tails = item_tails(*element, items, n);
            lemma_be_bytes_len(n, 32);
            lemma_item_heads_len(*element, items, n);
            crate::abi_type::lemma_supported_head_size(*element);
            assert(n <= n * element.head_size()) by (nonlinear_arith)
                requires
                    element.head_size() >= 32,
            ;
            assert(encoded(ty, value) =~= count + (heads + tails));
            lemma_occurs_split(data, start, count, heads + tails);
            lemma_occurs_is_part(data, start, count);
            lemma_be_bytes_value(n, 32);
            lemma_decoded_items(*element, items, data, start + 32, n);
            assert(items.take(n as int) =~= items);
        },
        AbiTypeView::FixedArray(element, count) => {
            let items = value->Array_items;
            lemma_item_heads_len(*element, items, count);
            lemma_decoded_items(*element, items, data, start, count);
            assert(items.take(count as int) =~= items);
        },
        AbiTypeView::Tuple(members) => {
            let values = value->Tuple_0;
            lemma_member_heads_len(members, values, members.len());
            lemma_decoded_members(members, values, data, start, members.len());
            assert(values.take(members.len() as int) =~= values);
        },
        _ => {
            let word = encoded_word(value);
            law_word_round_trip(ty, value);
            lemma_occurs_is_part(data, start, word);
            assert(word_at(word, 0) =~= word);
            assert(decoded_body(ty, word, 0) == Ok::<ValueView, DecodeError>(
                decoded_word(ty, word_at(word, 0)),
            ));
        },
    }
}

proof fn lemma_payload_stands(payload: Seq<u8>, data: Seq<u8>, start: int)
    requires
        data.len() < two_pow_256(),
        occurs(data, start, encoded_bytes(payload)),
    ensures
        payload_at(data, start) == Ok::<Seq<u8>, DecodeError>(payload),
{
    lemma_pow256_values();
    let length = be_bytes(payload.len(), 32);
    lemma_be_bytes_len(payload.len(), 32);
    lemma_occurs_split(data, start, length + payload, padding(payload.len()));
    lemma_occurs_split(data, start, length, payload);
    lemma_occurs_is_part(data, start, length);
    lemma_occurs_is_part(data, start + 32, payload);
    lemma_be_bytes_value(payload.len(), 32);
}

/// Where the encoding of an array stands, decoding the element `k` gives it.
proof fn lemma_decoded_item(
    element: AbiTypeView,
    items: Seq<ValueView>,
    data: Seq<u8>,
    base: int,
    k: nat,
)
    requires
        element.supported(),
        all_have_type(items, element),
        data.len() < two_pow_256(),
        occurs(
            data,
            base,
            item_heads(element, items, items.len()) + item_tails(element, items, items.len()),
        ),
        k < items.len(),
    ensures
        decoded_at(element, data, base, base + k * element.head_size()) == Ok::<
            ValueView,
            DecodeError,
        >(items[k as int]),
    decreases element, 1nat, 0nat,
{
    lemma_pow256_values();
    let n = items.len();
    let each = element.head_size();
    let heads = item_heads(element, items, n);
    let tails = item_tails(element, items, n);
    let head = item_head(element, items, k as int);
    lemma_item_heads_len(element, items, n);
    lemma_item_heads_len(element, items, k);
    lemma_occurs_concat(heads, tails);
    lemma_item_head_place(element, items, k, n);
    lemma_occurs_within(heads + tails, 0, heads, (k * each) as int, head);
    lemma_occurs_within(data, base, heads + tails, (k * each) as int, head);
    if element.is_dynamic() {
        let body = encoded(element, items[k as int]);
        let offset = n * each + item_tails(element, items, k).len();
        lemma_be_bytes_len(offset, 32);
        lemma_item_tail_place(element, items, k, n);
        lemma_occurs_within(
            heads + tails,
            (n * each) as int,
            tails,
            item_tails(element, items, k).len() as int,
            body,
        );
        lemma_occurs_within(data, base, heads + tails, offset as int, body);
        lemma_occurs_is_part(data, base + k * each, head);
        lemma_be_bytes_value(offset, 32);
        lemma_decoded_body(element, items[k as int], data, base + offset);
    } else {
        lemma_decoded_body(element, items[k as int], data, base + k * each);
    }
}

/// Where the encoding of an array stands, decoding its first `count` elements gives them.
proof fn lemma_decoded_items(
    element: AbiTypeView,
    items: Seq<ValueView>,
    data: Seq<u8>,
    base: int,
    count: nat,
)
    requires
        element.supported(),
        all_have_type(items, element),
        data.len() < two_pow_256(),
        occurs(
            data,
            base,
            item_heads(element, items, items.len()) + item_tails(element, items, items.len()),
        ),
        count <= items.len(),
    ensures
        decoded_items(element, data, base, count) == Ok::<Seq<ValueView>, DecodeError>(
            items.take(count as int),
        ),
    decreases element, 2nat, count,
{
    if count == 0 {
        assert(items.take(0) =~= Seq::<ValueView>::empty());
    } else {
        lemma_decoded_items(element, items, data, base, (count - 1) as nat);
        lemma_decoded_item(element, items, data, base, (count - 1) as nat);
        assert(items.take(count - 1).push(items[count - 1]) =~= items.take(count as int));
    }
}

/// Where the encoding of a tuple stands, decoding the member `k` gives it.
proof fn lemma_decoded_member(
    members: Seq<AbiTypeView>,
    values: Seq<ValueView>,
    data: Seq<u8>,
    base: int,
    k: nat,
)
    requires
        all_supported(members),
        have_types(values, members),
        data.len() < two_pow_256(),
        occurs(
            data,
            base,
            member_heads(members, values, members.len()) + member_tails(
                members,
                values,
                members.len(),
            ),
        ),
        k < members.len(),
    ensures
        decoded_at(members[k as int], data, base, base + members_head_size(members, k)) == Ok::<
            ValueView,
            DecodeError,
        >(values[k as int]),
    decreases members, 0nat, 0nat,
{
    lemma_pow256_values();
    let n = members.len();
    let member = members[k as int];
    let heads = member_heads(members, values, n);
    let tails = member_tails(members, values, n);
    let head = member_head(members, values, k as int);
    let place = members_head_size(members, k) as int;
    assert(member.supported());
    assert(has_type(values[k as int], member));
    lemma_member_heads_len(members, values, n);
    lemma_member_heads_len(members, values, k);
    lemma_occurs_concat(heads, tails);
    lemma_member_head_place(members, values, k, n);
    lemma_occurs_within(heads + tails, 0, heads, place, head);
    lemma_occurs_within(data, base, heads + tails, place, head);
    if member.is_dynamic() {
        let body = encoded(member, values[k as int]);
        let offset = members_head_size(members, n) + member_tails(members, values, k).len();
        lemma_be_bytes_len(offset, 32);
        lemma_member_tail_place(members, values, k, n);
        lemma_occurs_within(
            heads + tails,
            members_head_size(members, n) as int,
            tails,
            member_tails(members, values, k).len() as int,
            body,
        );
        lemma_occurs_within(data, base, heads + tails, offset as int, body);
        lemma_occurs_is_part(data, base + place, head);
        lemma_be_bytes_value(offset, 32);
        lemma_decoded_body(member, values[k as int], data, base + offset);
    } else {
        lemma_decoded_body(member, values[k as int], data, base + place);
    }
}

/// Where the encoding of a tuple stands, decoding its first `count` members gives them.
proof fn lemma_decoded_members(
    members: Seq<AbiTypeView>,
    values: Seq<ValueView>,
    data: Seq<u8>,
    base: int,
    count: nat,
)
    requires
        all_supported(members),
        have_types(values, members),
        data.len() < two_pow_256(),
        occurs(
            data,
            base,
            member_heads(members, values, members.len()) + member_tails(
                members,
                values,
                members.len(),
            ),
        ),
        count <= members.len(),
    ensures
        decoded_members(members, data, base, count) == Ok::<Seq<ValueView>, DecodeError>(
            values.take(count as int),
        ),
    decreases members, 1nat, count,
{
    if count == 0 {
        assert(values.take(0) =~= Seq::<ValueView>::empty());
    } else {
        lemma_decoded_members(members, values, data, base, (count - 1) as nat);
        lemma_decoded_member(members, values, data, base, (count - 1) as nat);
        assert(values.take(count - 1).push(values[count - 1]) =~= values.take(count as int));
    }
}

/// The encoding of one value where nothing else is encoded: the value itself where
/// its type has a fixed size, else the offset of its body and the body.
pub open spec fn encoded_alone(ty: AbiTypeView, value: ValueView) -> Seq<u8> {
    if ty.is_dynamic() {
        be_bytes(32, 32) + encoded(ty, value)
    } else {
        encoded(ty, value)
    }
}

/// Encoding a value of a type that the decoder knows, and decoding the encoding,
/// gives the value back.
pub proof fn law_round_trip(ty: AbiTypeView, value: ValueView)
    requires
        ty.supported(),
        has_type(value, ty),
        encoded_alone(ty, value).len() < two_pow_256(),
    ensures
        decoded_value(ty, encoded_alone(ty, value)) == Ok::<ValueView, DecodeError>(value),
{
    lemma_pow256_values();
    let data = encoded_alone(ty, value);
    if ty.is_dynamic() {
        let offset = be_bytes(32, 32);
        lemma_be_bytes_len(32, 32);
        lemma_be_bytes_value(32, 32);
        lemma_occurs_concat(offset, encoded(ty, value));
        lemma_occurs_is_part(data, 0, offset);
        lemma_decoded_body(ty, value, data, 32);
    } else {
        lemma_occurs_concat(data, Seq::<u8>::empty());
        assert(data + Seq::<u8>::empty() =~= data);
        lemma_decoded_body(ty, value, data, 0);
    }
}

} // verus!
