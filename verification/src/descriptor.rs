//! Type descriptors: the text by which a signature names the type of a parameter.
//!
//! The grammar, over ASCII:
//!
//! ```text
//! type       := elementary | type "[]" | type "[" number "]" | "(" type { "," type } ")"
//! elementary := "address" | "bool" | "string" | "bytes"
//!             | "uint" number | "int" number | "bytes" number
//! number     := a decimal number without a leading zero
//! ```
//!
//! An integer has 8 to 256 bits in steps of 8, `bytes<n>` has 1 to 32 bytes.

use crate::abi_type::{models_of, AbiType, AbiTypeView};
use crate::canonical::{descriptor_of, law_parsing_inverts_description};
use crate::error::DecodeError;
use vstd::prelude::*;
use vstd::utf8::encode_utf8;

verus! {

pub open spec fn name_address() -> Seq<u8> {
    seq!['a' as u8, 'd' as u8, 'd' as u8, 'r' as u8, 'e' as u8, 's' as u8, 's' as u8]
}

pub open spec fn name_bool() -> Seq<u8> {
    seq!['b' as u8, 'o' as u8, 'o' as u8, 'l' as u8]
}

pub open spec fn name_string() -> Seq<u8> {
    seq!['s' as u8, 't' as u8, 'r' as u8, 'i' as u8, 'n' as u8, 'g' as u8]
}

pub open spec fn name_bytes() -> Seq<u8> {
    seq!['b' as u8, 'y' as u8, 't' as u8, 'e' as u8, 's' as u8]
}

pub open spec fn name_uint() -> Seq<u8> {
    seq!['u' as u8, 'i' as u8, 'n' as u8, 't' as u8]
}

pub open spec fn name_int() -> Seq<u8> {
    seq!['i' as u8, 'n' as u8, 't' as u8]
}

/// Whether `b` is the ASCII code of a decimal digit.
pub open spec fn is_digit(b: u8) -> bool {
    ('0' as u8) <= b && b <= ('9' as u8)
}

/// The number that decimal digits spell.
pub open spec fn decimal_value(digits: Seq<u8>) -> nat
    decreases digits.len(),
{
    if digits.len() == 0 {
        0
    } else {
        decimal_value(digits.drop_last()) * 10 + (digits.last() - ('0' as u8)) as nat
    }
}

/// Whether `digits` spell a number as this grammar writes one: at least one digit,
/// and the first of them not a zero.
pub open spec fn is_number(digits: Seq<u8>) -> bool {
    &&& digits.len() >= 1
    &&& digits[0] != '0' as u8
    &&& forall|i: int| 0 <= i < digits.len() ==> is_digit(#[trigger] digits[i])
}

/// Whether `text` begins with `prefix`.
pub open spec fn has_prefix(text: Seq<u8>, prefix: Seq<u8>) -> bool {
    prefix.len() <= text.len() && text.take(prefix.len() as int) == prefix
}

/// The index of the last `byte` in `text`, or -1 where it has none.
pub open spec fn last_index_of(text: Seq<u8>, byte: u8) -> int
    decreases text.len(),
{
    if text.len() == 0 {
        -1
    } else if text.last() == byte {
        text.len() - 1
    } else {
        last_index_of(text.drop_last(), byte)
    }
}

/// Where the tuple member that holds position `at` ends: the index of the first
/// comma at or after `at` that no parenthesis encloses, or the length of `text`.
/// `depth` counts the parentheses that are open at `at`.
pub open spec fn member_end(text: Seq<u8>, at: int, depth: nat) -> int
    decreases text.len() - at,
{
    if at < 0 || at >= text.len() {
        text.len() as int
    } else if text[at] == ',' as u8 && depth == 0 {
        at
    } else if text[at] == '(' as u8 {
        member_end(text, at + 1, depth + 1)
    } else if text[at] == ')' as u8 && depth > 0 {
        member_end(text, at + 1, (depth - 1) as nat)
    } else {
        member_end(text, at + 1, depth)
    }
}

/// The elementary type that `text` names.
pub open spec fn parsed_elementary(text: Seq<u8>) -> Option<AbiTypeView> {
    if text == name_address() {
        Some(AbiTypeView::Address)
    } else if text == name_bool() {
        Some(AbiTypeView::Bool)
    } else if text == name_string() {
        Some(AbiTypeView::String)
    } else if text == name_bytes() {
        Some(AbiTypeView::Bytes)
    } else if has_prefix(text, name_uint()) {
        let size = text.skip(4);
        if is_number(size) && 8 <= decimal_value(size) <= 256 && decimal_value(size) % 8 == 0 {
            Some(AbiTypeView::Uint(decimal_value(size)))
        } else {
            None
        }
    } else if has_prefix(text, name_int()) {
        let size = text.skip(3);
        if is_number(size) && 8 <= decimal_value(size) <= 256 && decimal_value(size) % 8 == 0 {
            Some(AbiTypeView::Int(decimal_value(size)))
        } else {
            None
        }
    } else if has_prefix(text, name_bytes()) {
        let size = text.skip(5);
        if is_number(size) && 1 <= decimal_value(size) <= 32 {
            Some(AbiTypeView::FixedBytes(decimal_value(size)))
        } else {
            None
        }
    } else {
        None
    }
}

/// The type that `text` names, or `None` where it names none.
pub open spec fn parsed_type(text: Seq<u8>) -> Option<AbiTypeView>
    decreases text.len(), 0nat,
{
    if text.len() == 0 {
        None
    } else if text.last() == ']' as u8 {
        let open = last_index_of(text, '[' as u8);
        if open < 0 || open > text.len() - 2 {
            None
        } else {
            let count = text.subrange(open + 1, text.len() - 1);
            match parsed_type(text.take(open)) {
                None => None,
                Some(element) => {
                    if count.len() == 0 {
                        Some(AbiTypeView::Array(Box::new(element)))
                    } else if is_number(count) && decimal_value(count) <= usize::MAX {
                        Some(AbiTypeView::FixedArray(Box::new(element), decimal_value(count)))
                    } else {
                        None
                    }
                },
            }
        }
    } else if text.len() >= 2 && text.first() == '(' as u8 && text.last() == ')' as u8 {
        match parsed_members(text.subrange(1, text.len() - 1)) {
            None => None,
            Some(members) => Some(AbiTypeView::Tuple(members)),
        }
    } else {
        parsed_elementary(text)
    }
}

/// The types that `text` names, one after another with commas between them.
pub open spec fn parsed_members(text: Seq<u8>) -> Option<Seq<AbiTypeView>>
    decreases text.len(), 1nat,
{
    let end = member_end(text, 0, 0);
    if end < 0 || end > text.len() {
        None
    } else {
        match parsed_type(text.take(end)) {
            None => None,
            Some(first) => {
                if end == text.len() {
                    Some(seq![first])
                } else {
                    match parsed_members(text.skip(end + 1)) {
                        None => None,
                        Some(rest) => Some(seq![first] + rest),
                    }
                }
            },
        }
    }
}

/// The type that a descriptor names.
pub open spec fn parsed_descriptor(descriptor: Seq<char>) -> Option<AbiTypeView> {
    parsed_type(encode_utf8(descriptor))
}

proof fn lemma_decimal_prefix(digits: Seq<u8>, count: int)
    requires
        0 <= count <= digits.len(),
    ensures
        decimal_value(digits.take(count)) <= decimal_value(digits),
    decreases digits.len() - count,
{
    if count < digits.len() {
        lemma_decimal_prefix(digits, count + 1);
        assert(digits.take(count + 1).drop_last() =~= digits.take(count));
    } else {
        assert(digits.take(count) =~= digits);
    }
}

proof fn lemma_number_positive(digits: Seq<u8>)
    requires
        is_number(digits),
    ensures
        decimal_value(digits) >= 1,
{
    lemma_decimal_prefix(digits, 1);
    assert(digits.take(1).drop_last() =~= Seq::<u8>::empty());
    assert(digits.take(1).last() == digits[0]);
    assert(decimal_value(digits.take(1)) == decimal_value(Seq::<u8>::empty()) * 10 + (digits[0] - (
    '0' as u8)) as nat);
}

/// Whether the bytes of `text` from `from` up to `to` are `word`.
fn range_is(text: &[u8], from: usize, to: usize, word: &[u8]) -> (out: bool)
    requires
        from <= to <= text@.len(),
    ensures
        out == (text@.subrange(from as int, to as int) == word@),
{
    if to - from != word.len() {
        return false;
    }
    let mut i: usize = 0;
    while i < word.len()
        invariant
            i <= word.len(),
            from <= to <= text@.len(),
            to - from == word@.len(),
            forall|j: int| 0 <= j < i ==> text@[from + j] == word@[j],
        decreases word.len() - i,
    {
        if text[from + i] != word[i] {
            assert(text@.subrange(from as int, to as int)[i as int] != word@[i as int]);
            return false;
        }
        i += 1;
    }
    assert(text@.subrange(from as int, to as int) =~= word@);
    true
}

/// Whether the bytes of `text` from `from` up to `to` begin with `word`.
fn range_starts_with(text: &[u8], from: usize, to: usize, word: &[u8]) -> (out: bool)
    requires
        from <= to <= text@.len(),
    ensures
        out == has_prefix(text@.subrange(from as int, to as int), word@),
{
    if to - from < word.len() {
        return false;
    }
    let found = range_is(text, from, from + word.len(), word);
    assert(text@.subrange(from as int, to as int).take(word@.len() as int) =~= text@.subrange(
        from as int,
        from + word@.len(),
    ));
    found
}

/// Reads the bytes of `text` from `from` up to `to` as a number.
fn parse_number(text: &[u8], from: usize, to: usize) -> (out: Option<usize>)
    requires
        from <= to <= text@.len(),
    ensures
        match out {
            Some(value) => is_number(text@.subrange(from as int, to as int)) && value
                == decimal_value(text@.subrange(from as int, to as int)),
            None => !is_number(text@.subrange(from as int, to as int)) || decimal_value(
                text@.subrange(from as int, to as int),
            ) > usize::MAX,
        },
{
    let ghost digits = text@.subrange(from as int, to as int);
    if from == to || text[from] == '0' as u8 {
        return None;
    }
    let mut value: usize = 0;
    let mut i: usize = from;
    assert(digits.take(0) =~= Seq::<u8>::empty());
    while i < to
        invariant
            from <= i <= to <= text@.len(),
            digits == text@.subrange(from as int, to as int),
            forall|j: int| 0 <= j < i - from ==> is_digit(#[trigger] digits[j]),
            value == decimal_value(digits.take(i - from)),
        decreases to - i,
    {
        let byte = text[i];
        if byte < '0' as u8 || byte > '9' as u8 {
            assert(!is_digit(digits[i - from]));
            return None;
        }
        proof {
            assert(digits.take(i - from + 1).drop_last() =~= digits.take(i - from));
            assert(digits.take(i - from + 1).last() == byte);
            lemma_decimal_prefix(digits, i - from + 1);
        }
        let next = match value.checked_mul(10) {
            None => None,
            Some(shifted) => shifted.checked_add((byte - '0' as u8) as usize),
        };
        match next {
            None => {
                return None;
            },
            Some(sum) => {
                value = sum;
            },
        }
        i += 1;
    }
    assert(digits.take(to - from) =~= digits);
    Some(value)
}

/// Reads the bytes of `text` from `from` up to `to` as the name of an elementary type.
fn parse_elementary(text: &[u8], from: usize, to: usize) -> (out: Option<AbiType>)
    requires
        from <= to <= text@.len(),
    ensures
        match out {
            Some(ty) => parsed_elementary(text@.subrange(from as int, to as int)) == Some(ty@)
                && ty@.supported(),
            None => parsed_elementary(text@.subrange(from as int, to as int)) is None,
        },
{
    let ghost name = text@.subrange(from as int, to as int);
    let address = ['a' as u8, 'd' as u8, 'd' as u8, 'r' as u8, 'e' as u8, 's' as u8, 's' as u8];
    let boolean = ['b' as u8, 'o' as u8, 'o' as u8, 'l' as u8];
    let string = ['s' as u8, 't' as u8, 'r' as u8, 'i' as u8, 'n' as u8, 'g' as u8];
    let bytes = ['b' as u8, 'y' as u8, 't' as u8, 'e' as u8, 's' as u8];
    let unsigned = ['u' as u8, 'i' as u8, 'n' as u8, 't' as u8];
    let signed = ['i' as u8, 'n' as u8, 't' as u8];
    assert(address@ =~= name_address());
    assert(boolean@ =~= name_bool());
    assert(string@ =~= name_string());
    assert(bytes@ =~= name_bytes());
    assert(unsigned@ =~= name_uint());
    assert(signed@ =~= name_int());
    if range_is(text, from, to, address.as_slice()) {
        Some(AbiType::Address)
    } else if range_is(text, from, to, boolean.as_slice()) {
        Some(AbiType::Bool)
    } else if range_is(text, from, to, string.as_slice()) {
        Some(AbiType::String)
    } else if range_is(text, from, to, bytes.as_slice()) {
        Some(AbiType::Bytes)
    } else if range_starts_with(text, from, to, unsigned.as_slice()) {
        assert(name.skip(4) =~= text@.subrange(from + 4, to as int));
        match parse_number(text, from + 4, to) {
            Some(bits) => {
                if 8 <= bits && bits <= 256 && bits % 8 == 0 {
                    Some(AbiType::Uint(bits as u16))
                } else {
                    None
                }
            },
            None => None,
        }
    } else if range_starts_with(text, from, to, signed.as_slice()) {
        assert(name.skip(3) =~= text@.subrange(from + 3, to as int));
        match parse_number(text, from + 3, to) {
            Some(bits) => {
                if 8 <= bits && bits <= 256 && bits % 8 == 0 {
                    Some(AbiType::Int(bits as u16))
                } else {
                    None
                }
            },
            None => None,
        }
    } else if range_starts_with(text, from, to, bytes.as_slice()) {
        assert(name.skip(5) =~= text@.subrange(from + 5, to as int));
        match parse_number(text, from + 5, to) {
            Some(size) => {
                if 1 <= size && size <= 32 {
                    Some(AbiType::FixedBytes(size as u8))
                } else {
                    None
                }
            },
            None => None,
        }
    } else {
        None
    }
}

/// Finds the last `[` among the bytes of `text` from `from` up to `to`.
fn find_last_open(text: &[u8], from: usize, to: usize) -> (out: Option<usize>)
    requires
        from <= to <= text@.len(),
    ensures
        match out {
            Some(at) => from <= at < to && last_index_of(
                text@.subrange(from as int, to as int),
                '[' as u8,
            ) == at - from,
            None => last_index_of(text@.subrange(from as int, to as int), '[' as u8) == -1,
        },
{
    let ghost whole = text@.subrange(from as int, to as int);
    let mut end: usize = to;
    assert(whole.take(to - from) =~= whole);
    while end > from
        invariant
            from <= end <= to <= text@.len(),
            whole == text@.subrange(from as int, to as int),
            last_index_of(whole, '[' as u8) == last_index_of(whole.take(end - from), '[' as u8),
        decreases end - from,
    {
        if text[end - 1] == '[' as u8 {
            return Some(end - 1);
        }
        assert(whole.take(end - from).drop_last() =~= whole.take(end - from - 1));
        end -= 1;
    }
    None
}

/// Finds where the tuple member that starts at `from` ends, among the bytes of `text` up to `to`.
fn find_member_end(text: &[u8], from: usize, to: usize) -> (out: usize)
    requires
        from <= to <= text@.len(),
    ensures
        from <= out <= to,
        out - from == member_end(text@.subrange(from as int, to as int), 0, 0),
{
    let ghost whole = text@.subrange(from as int, to as int);
    let mut at: usize = from;
    let mut depth: usize = 0;
    while at < to
        invariant
            from <= at <= to <= text@.len(),
            depth <= at - from,
            whole == text@.subrange(from as int, to as int),
            member_end(whole, 0, 0) == member_end(whole, at - from, depth as nat),
        decreases to - at,
    {
        let byte = text[at];
        if byte == ',' as u8 && depth == 0 {
            return at;
        } else if byte == '(' as u8 {
            depth += 1;
        } else if byte == ')' as u8 && depth > 0 {
            depth -= 1;
        }
        at += 1;
    }
    at
}

/// Whether `out` is `expected`, the type taken by its model.
pub open spec fn names(out: Option<AbiType>, expected: Option<AbiTypeView>) -> bool {
    match out {
        Some(ty) => expected == Some(ty@) && ty@.supported(),
        None => expected is None,
    }
}

/// Reads the bytes of `text` from `from` up to `to` as a type.
fn parse_range(text: &[u8], from: usize, to: usize) -> (out: Option<AbiType>)
    requires
        from <= to <= text@.len(),
    ensures
        names(out, parsed_type(text@.subrange(from as int, to as int))),
    decreases to - from, 0nat,
{
    let ghost whole = text@.subrange(from as int, to as int);
    if from == to {
        return None;
    }
    let last = text[to - 1];
    if last == ']' as u8 {
        let open = match find_last_open(text, from, to) {
            None => {
                return None;
            },
            Some(open) => open,
        };
        if to - open < 2 {
            return None;
        }
        assert(whole.take(open - from) =~= text@.subrange(from as int, open as int));
        assert(whole.subrange(open - from + 1, whole.len() - 1) =~= text@.subrange(
            open + 1,
            to - 1,
        ));
        let element = match parse_range(text, from, open) {
            None => {
                return None;
            },
            Some(element) => element,
        };
        if open + 1 == to - 1 {
            Some(AbiType::Array(Box::new(element)))
        } else {
            match parse_number(text, open + 1, to - 1) {
                None => None,
                Some(count) => {
                    proof {
                        lemma_number_positive(text@.subrange(open + 1, to - 1));
                    }
                    Some(AbiType::FixedArray(Box::new(element), count))
                },
            }
        }
    } else if to - from >= 2 && text[from] == '(' as u8 && last == ')' as u8 {
        assert(whole.subrange(1, whole.len() - 1) =~= text@.subrange(from + 1, to - 1));
        match parse_members(text, from + 1, to - 1) {
            None => None,
            Some(members) => {
                let out = AbiType::Tuple(members);
                assert(out@->Tuple_0 =~= models_of(members@));
                Some(out)
            },
        }
    } else {
        parse_elementary(text, from, to)
    }
}

/// The types that follow `found` where `rest` names them too.
pub open spec fn joined(found: Seq<AbiTypeView>, rest: Option<Seq<AbiTypeView>>) -> Option<
    Seq<AbiTypeView>,
> {
    match rest {
        None => None,
        Some(more) => Some(found + more),
    }
}

/// Reads the bytes of `text` from `from` up to `to` as types with commas between them.
fn parse_members(text: &[u8], from: usize, to: usize) -> (out: Option<Vec<AbiType>>)
    requires
        from <= to <= text@.len(),
    ensures
        match out {
            Some(members) => {
                &&& parsed_members(text@.subrange(from as int, to as int)) == Some(
                    models_of(members@),
                )
                &&& members@.len() >= 1
                &&& forall|i: int| 0 <= i < members@.len() ==> (#[trigger] members@[i])@.supported()
            },
            None => parsed_members(text@.subrange(from as int, to as int)) is None,
        },
    decreases to - from, 1nat,
{
    let ghost whole = text@.subrange(from as int, to as int);
    let mut members: Vec<AbiType> = Vec::new();
    let mut start: usize = from;
    assert(models_of(members@) =~= Seq::<AbiTypeView>::empty());
    loop
        invariant
            from <= start <= to <= text@.len(),
            whole == text@.subrange(from as int, to as int),
            parsed_members(whole) == joined(
                models_of(members@),
                parsed_members(text@.subrange(start as int, to as int)),
            ),
            forall|i: int| 0 <= i < members@.len() ==> (#[trigger] members@[i])@.supported(),
        decreases to - start,
    {
        let ghost rest = text@.subrange(start as int, to as int);
        let end = find_member_end(text, start, to);
        assert(rest.take(end - start) =~= text@.subrange(start as int, end as int));
        let ghost before = models_of(members@);
        match parse_range(text, start, end) {
            None => {
                return None;
            },
            Some(member) => {
                members.push(member);
            },
        }
        assert(models_of(members@) =~= before.push(members@[members@.len() - 1]@));
        if end == to {
            assert(before + seq![members@[members@.len() - 1]@] =~= models_of(members@));
            return Some(members);
        }
        proof {
            assert(rest.skip(end - start + 1) =~= text@.subrange(end + 1, to as int));
            let first = members@[members@.len() - 1]@;
            match parsed_members(text@.subrange(end + 1, to as int)) {
                None => {},
                Some(more) => {
                    assert(before + (seq![first] + more) =~= models_of(members@) + more);
                },
            }
        }
        start = end + 1;
    }
}

impl AbiType {
    /// Reads a type descriptor: gives the type of which `descriptor` is the canonical
    /// text, if the decoder knows such a type.
    pub fn parse(descriptor: &str) -> (out: Result<AbiType, DecodeError>)
        ensures
            match out {
                Ok(ty) => {
                    &&& ty@.supported()
                    &&& descriptor_of(ty@) == encode_utf8(descriptor@)
                    &&& parsed_descriptor(descriptor@) == Some(ty@)
                },
                Err(e) => {
                    &&& e == DecodeError::UnsupportedType
                    &&& parsed_descriptor(descriptor@) is None
                    &&& forall|ty: AbiTypeView|
                        ty.supported() ==> #[trigger] descriptor_of(ty) != encode_utf8(descriptor@)
                },
            },
    {
        let text = descriptor.as_bytes();
        assert(text@.subrange(0, text@.len() as int) =~= text@);
        match parse_range(text, 0, text.len()) {
            Some(ty) => {
                proof {
                    law_parsing_inverts_description(text@, ty@);
                }
                Ok(ty)
            },
            None => {
                proof {
                    assert forall|ty: AbiTypeView| ty.supported() implies #[trigger] descriptor_of(
                        ty,
                    ) != text@ by {
                        law_parsing_inverts_description(text@, ty);
                    }
                }
                Err(DecodeError::UnsupportedType)
            },
        }
    }
}

} // verus!
