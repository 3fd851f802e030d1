//! The canonical text of a type, and that reading it gives the type back.

use crate::abi_type::AbiTypeView;
use crate::descriptor::{
    decimal_value, has_prefix, is_digit, is_number, last_index_of, member_end, name_address,
    name_bool, name_bytes, name_int, name_string, name_uint, parsed_elementary, parsed_members,
    parsed_type,
};
use crate::text::{lemma_occurs_split, occurs};
use vstd::prelude::*;

verus! {

/// The decimal digits of `n`, without a leading zero unless `n` is 0.
pub open spec fn decimal_digits(n: nat) -> Seq<u8>
    decreases n,
{
    if n < 10 {
        seq![('0' as u8 + n) as u8]
    } else {
        decimal_digits(n / 10).push(('0' as u8 + n % 10) as u8)
    }
}

/// The text that names the type `ty`.
pub open spec fn descriptor_of(ty: AbiTypeView) -> Seq<u8>
    decreases ty, 0nat,
{
    match ty {
        AbiTypeView::Address => name_address(),
        AbiTypeView::Bool => name_bool(),
        AbiTypeView::String => name_string(),
        AbiTypeView::Bytes => name_bytes(),
        AbiTypeView::Uint(bits) => name_uint() + decimal_digits(bits),
        AbiTypeView::Int(bits) => name_int() + decimal_digits(bits),
        AbiTypeView::FixedBytes(len) => name_bytes() + decimal_digits(len),
        AbiTypeView::Array(element) => descriptor_of(*element) + seq!['[' as u8, ']' as u8],
        AbiTypeView::FixedArray(element, count) => descriptor_of(*element) + seq!['[' as u8]
            + decimal_digits(count) + seq![']' as u8],
        AbiTypeView::Tuple(members) => seq!['(' as u8] + joined_descriptors(members, 0) + seq![
            ')' as u8,
        ],
    }
}

/// The texts that name `members` from the one at `from` on, with commas between them.
pub open spec fn joined_descriptors(members: Seq<AbiTypeView>, from: nat) -> Seq<u8>
    decreases members, members.len() - from,
{
    if from >= members.len() {
        Seq::empty()
    } else if from + 1 == members.len() {
        descriptor_of(members[from as int])
    } else {
        descriptor_of(members[from as int]) + seq![',' as u8] + joined_descriptors(
            members,
            from + 1,
        )
    }
}

/// The digits of the number that canonical digits spell are those digits.
proof fn lemma_digits_of_value(digits: Seq<u8>)
    requires
        is_number(digits),
    ensures
        decimal_digits(decimal_value(digits)) == digits,
        decimal_value(digits) >= 1,
    decreases digits.len(),
{
    let last = digits.last();
    let init = digits.drop_last();
    assert(is_digit(digits[digits.len() - 1]));
    if digits.len() == 1 {
        assert(init =~= Seq::<u8>::empty());
        assert(decimal_value(init) == 0);
        assert(is_digit(digits[0]));
        assert(decimal_digits(decimal_value(digits)) =~= digits);
    } else {
        assert(init[0] == digits[0]);
        assert forall|i: int| 0 <= i < init.len() implies is_digit(#[trigger] init[i]) by {
            assert(init[i] == digits[i]);
        }
        lemma_digits_of_value(init);
        let value = decimal_value(digits);
        assert(value == decimal_value(init) * 10 + (last - '0' as u8));
        assert(value / 10 == decimal_value(init));
        assert(value % 10 == (last - '0' as u8) as nat);
        assert(decimal_digits(value) =~= digits);
    }
}

/// The number that the digits of `n` spell is `n`, and the digits are canonical.
proof fn lemma_value_of_digits(n: nat)
    requires
        n >= 1,
    ensures
        is_number(decimal_digits(n)),
        decimal_value(decimal_digits(n)) == n,
    decreases n,
{
    let digits = decimal_digits(n);
    if n < 10 {
        assert(digits.drop_last() =~= Seq::<u8>::empty());
        assert(decimal_value(digits.drop_last()) == 0);
    } else {
        lemma_value_of_digits(n / 10);
        let init = decimal_digits(n / 10);
        assert(digits.drop_last() =~= init);
        assert(digits[0] == init[0]);
        assert forall|i: int| 0 <= i < digits.len() implies is_digit(#[trigger] digits[i]) by {
            if i < init.len() {
                assert(digits[i] == init[i]);
            }
        }
    }
}

/// What `last_index_of` finds is the last of its kind.
proof fn lemma_last_index(text: Seq<u8>, byte: u8)
    ensures
        -1 <= last_index_of(text, byte) < text.len(),
        last_index_of(text, byte) >= 0 ==> text[last_index_of(text, byte)] == byte,
        forall|j: int| last_index_of(text, byte) < j < text.len() ==> text[j] != byte,
    decreases text.len(),
{
    if text.len() > 0 && text.last() != byte {
        lemma_last_index(text.drop_last(), byte);
        let found = last_index_of(text.drop_last(), byte);
        assert forall|j: int| found < j < text.len() implies text[j] != byte by {
            if j < text.len() - 1 {
                assert(text.drop_last()[j] == text[j]);
            }
        }
        if found >= 0 {
            assert(text.drop_last()[found] == text[found]);
        }
    }
}

/// Where a member ends, there is a comma or the end of the text.
proof fn lemma_member_end(text: Seq<u8>, at: int, depth: nat)
    requires
        0 <= at <= text.len(),
    ensures
        at <= member_end(text, at, depth) <= text.len(),
        member_end(text, at, depth) < text.len() ==> text[member_end(text, at, depth)] == ',' as u8,
    decreases text.len() - at,
{
    if at < text.len() {
        if text[at] == ',' as u8 && depth == 0 {
        } else if text[at] == '(' as u8 {
            lemma_member_end(text, at + 1, depth + 1);
        } else if text[at] == ')' as u8 && depth > 0 {
            lemma_member_end(text, at + 1, (depth - 1) as nat);
        } else {
            lemma_member_end(text, at + 1, depth);
        }
    }
}

/// The joined texts of members do not depend on what stands before them.
proof fn lemma_joined_shift(first: AbiTypeView, rest: Seq<AbiTypeView>, from: nat)
    ensures
        joined_descriptors(seq![first] + rest, from + 1) == joined_descriptors(rest, from),
    decreases rest.len() - from,
{
    let all = seq![first] + rest;
    if from < rest.len() {
        assert(all[(from + 1) as int] == rest[from as int]);
        if from + 1 < rest.len() {
            lemma_joined_shift(first, rest, from + 1);
        }
    }
}

/// The name of an elementary type is its canonical text.
proof fn lemma_elementary_is_described(text: Seq<u8>)
    requires
        parsed_elementary(text) is Some,
    ensures
        parsed_elementary(text)->0.supported(),
        descriptor_of(parsed_elementary(text)->0) == text,
{
    if text == name_address() || text == name_bool() || text == name_string() || text
        == name_bytes() {
    } else if has_prefix(text, name_uint()) {
        lemma_digits_of_value(text.skip(4));
        assert(text =~= name_uint() + text.skip(4));
    } else if has_prefix(text, name_int()) {
        lemma_digits_of_value(text.skip(3));
        assert(text =~= name_int() + text.skip(3));
    } else {
        lemma_digits_of_value(text.skip(5));
        assert(text =~= name_bytes() + text.skip(5));
    }
}

/// Text that names a type is the canonical text of that type, and the type is one
/// that the decoder knows.
pub proof fn lemma_parsed_is_described(text: Seq<u8>)
    requires
        parsed_type(text) is Some,
    ensures
        parsed_type(text)->0.supported(),
        descriptor_of(parsed_type(text)->0) == text,
    decreases text.len(), 0nat,
{
    if text.last() == ']' as u8 {
        let open = last_index_of(text, '[' as u8);
        lemma_last_index(text, '[' as u8);
        let count = text.subrange(open + 1, text.len() - 1);
        lemma_parsed_is_described(text.take(open));
        if count.len() == 0 {
            assert(text =~= text.take(open) + seq!['[' as u8, ']' as u8]);
        } else {
            lemma_digits_of_value(count);
            assert(text =~= text.take(open) + seq!['[' as u8] + count + seq![']' as u8]);
        }
    } else if text.len() >= 2 && text.first() == '(' as u8 && text.last() == ')' as u8 {
        let inner = text.subrange(1, text.len() - 1);
        lemma_members_are_described(inner);
        assert(text =~= seq!['(' as u8] + inner + seq![')' as u8]);
    } else {
        lemma_elementary_is_described(text);
    }
}

/// Text that names the members of a tuple is their canonical texts with commas
/// between them.
proof fn lemma_members_are_described(text: Seq<u8>)
    requires
        parsed_members(text) is Some,
    ensures
        parsed_members(text)->0.len() >= 1,
        forall|i: int|
            0 <= i < parsed_members(text)->0.len() ==> (#[trigger] parsed_members(
                text,
            )->0[i]).supported(),
        joined_descriptors(parsed_members(text)->0, 0) == text,
    decreases text.len(), 1nat,
{
    let end = member_end(text, 0, 0);
    lemma_member_end(text, 0, 0);
    lemma_parsed_is_described(text.take(end));
    let first = parsed_type(text.take(end))->0;
    if end == text.len() {
        assert(text.take(end) =~= text);
    } else {
        let tail = text.skip(end + 1);
        lemma_members_are_described(tail);
        let rest = parsed_members(tail)->0;
        let all = seq![first] + rest;
        lemma_joined_shift(first, rest, 0);
        assert(all[0] == first);
        assert(text =~= text.take(end) + seq![',' as u8] + tail);
        assert forall|i: int| 0 <= i < all.len() implies (#[trigger] all[i]).supported() by {
            if i > 0 {
                assert(all[i] == rest[i - 1]);
            }
        }
    }
}

/// Whether `b` is neither a parenthesis nor a comma nor a bracket.
pub open spec fn is_plain(b: u8) -> bool {
    b != '(' as u8 && b != ')' as u8 && b != ',' as u8 && b != '[' as u8 && b != ']' as u8
}

/// Whether `piece` holds neither a parenthesis nor a comma nor a bracket.
pub open spec fn all_plain(piece: Seq<u8>) -> bool {
    forall|k: int| 0 <= k < piece.len() ==> is_plain(#[trigger] piece[k])
}

proof fn lemma_digits_are_plain(n: nat)
    requires
        n >= 1,
    ensures
        all_plain(decimal_digits(n)),
{
    lemma_value_of_digits(n);
    let digits = decimal_digits(n);
    assert forall|k: int| 0 <= k < digits.len() implies is_plain(#[trigger] digits[k]) by {
        assert(is_digit(digits[k]));
    }
}

/// The search for the end of a member passes over what is plain.
proof fn lemma_skip_plain(text: Seq<u8>, at: int, piece: Seq<u8>, done: int, depth: nat)
    requires
        occurs(text, at, piece),
        all_plain(piece),
        0 <= done <= piece.len(),
    ensures
        member_end(text, at + done, depth) == member_end(text, at + piece.len(), depth),
    decreases piece.len() - done,
{
    if done < piece.len() {
        assert(text[at + done] == piece[done]);
        assert(is_plain(piece[done]));
        lemma_skip_plain(text, at, piece, done + 1, depth);
    }
}

/// The search for the end of a member passes over the canonical text of a type.
proof fn lemma_skip_descriptor(ty: AbiTypeView, text: Seq<u8>, at: int, depth: nat)
    requires
        ty.supported(),
        occurs(text, at, descriptor_of(ty)),
    ensures
        member_end(text, at, depth) == member_end(text, at + descriptor_of(ty).len(), depth),
    decreases ty, 0nat,
{
    let whole = descriptor_of(ty);
    match ty {
        AbiTypeView::Uint(bits) => {
            lemma_digits_are_plain(bits);
            assert(all_plain(whole));
            lemma_skip_plain(text, at, whole, 0, depth);
        },
        AbiTypeView::Int(bits) => {
            lemma_digits_are_plain(bits);
            assert(all_plain(whole));
            lemma_skip_plain(text, at, whole, 0, depth);
        },
        AbiTypeView::FixedBytes(len) => {
            lemma_digits_are_plain(len);
            assert(all_plain(whole));
            lemma_skip_plain(text, at, whole, 0, depth);
        },
        AbiTypeView::Array(element) => {
            let inner = descriptor_of(*element);
            let suffix = seq!['[' as u8, ']' as u8];
            lemma_occurs_split(text, at, inner, suffix);
            lemma_skip_descriptor(*element, text, at, depth);
            assert(text[at + inner.len()] == suffix[0]);
            assert(text[at + inner.len() + 1] == suffix[1]);
            assert(member_end(text, at + inner.len(), depth) == member_end(
                text,
                at + inner.len() + 1,
                depth,
            ));
            assert(member_end(text, at + inner.len() + 1, depth) == member_end(
                text,
                at + inner.len() + 2,
                depth,
            ));
        },
        AbiTypeView::FixedArray(element, count) => {
            let inner = descriptor_of(*element);
            let open = seq!['[' as u8];
            let digits = decimal_digits(count);
            let close = seq![']' as u8];
            lemma_digits_are_plain(count);
            lemma_occurs_split(text, at, inner + open + digits, close);
            lemma_occurs_split(text, at, inner + open, digits);
            lemma_occurs_split(text, at, inner, open);
            lemma_skip_descriptor(*element, text, at, depth);
            assert(text[at + inner.len()] == open[0]);
            assert(member_end(text, at + inner.len(), depth) == member_end(
                text,
                at + inner.len() + 1,
                depth,
            ));
            lemma_skip_plain(text, at + inner.len() + 1, digits, 0, depth);
            assert(text[at + inner.len() + 1 + digits.len()] == close[0]);
            assert(member_end(text, at + inner.len() + 1 + digits.len(), depth) == member_end(
                text,
                at + inner.len() + 1 + digits.len() + 1,
                depth,
            ));
        },
        AbiTypeView::Tuple(members) => {
            let open = seq!['(' as u8];
            let inner = joined_descriptors(members, 0);
            let close = seq![')' as u8];
            lemma_occurs_split(text, at, open + inner, close);
            lemma_occurs_split(text, at, open, inner);
            assert(text[at] == open[0]);
            assert(member_end(text, at, depth) == member_end(text, at + 1, depth + 1));
            lemma_skip_joined(members, 0, text, at + 1, depth + 1);
            assert(text[at + 1 + inner.len()] == close[0]);
            assert(member_end(text, at + 1 + inner.len(), depth + 1) == member_end(
                text,
                at + 1 + inner.len() + 1,
                depth,
            ));
        },
        _ => {
            assert(all_plain(whole));
            lemma_skip_plain(text, at, whole, 0, depth);
        },
    }
}

/// The search for the end of a member passes over the members of a tuple that is
/// enclosed in parentheses.
proof fn lemma_skip_joined(members: Seq<AbiTypeView>, from: nat, text: Seq<u8>, at: int, depth: nat)
    requires
        depth >= 1,
        from <= members.len(),
        forall|i: int| 0 <= i < members.len() ==> (#[trigger] members[i]).supported(),
        occurs(text, at, joined_descriptors(members, from)),
    ensures
        member_end(text, at, depth) == member_end(
            text,
            at + joined_descriptors(members, from).len(),
            depth,
        ),
    decreases members, members.len() - from,
{
    if from < members.len() {
        let first = descriptor_of(members[from as int]);
        if from + 1 == members.len() {
            lemma_skip_descriptor(members[from as int], text, at, depth);
        } else {
            let comma = seq![',' as u8];
            let rest = joined_descriptors(members, from + 1);
            lemma_occurs_split(text, at, first + comma, rest);
            lemma_occurs_split(text, at, first, comma);
            lemma_skip_descriptor(members[from as int], text, at, depth);
            assert(text[at + first.len()] == comma[0]);
            assert(member_end(text, at + first.len(), depth) == member_end(
                text,
                at + first.len() + 1,
                depth,
            ));
            lemma_skip_joined(members, from + 1, text, at + first.len() + 1, depth);
        }
    }
}

/// Where `byte` stands at `at` and nowhere after, `last_index_of` finds it there.
proof fn lemma_last_index_found(text: Seq<u8>, byte: u8, at: int)
    requires
        0 <= at < text.len(),
        text[at] == byte,
        forall|j: int| at < j < text.len() ==> text[j] != byte,
    ensures
        last_index_of(text, byte) == at,
    decreases text.len(),
{
    if at < text.len() - 1 {
        assert(text.last() != byte);
        let init = text.drop_last();
        assert(init[at] == text[at]);
        assert forall|j: int| at < j < init.len() implies init[j] != byte by {
            assert(init[j] == text[j]);
        }
        lemma_last_index_found(init, byte, at);
    }
}

/// The canonical text of an elementary type names the type.
proof fn lemma_described_elementary(ty: AbiTypeView)
    requires
        ty.supported(),
        ty.is_elementary(),
    ensures
        descriptor_of(ty).len() >= 1,
        is_plain(descriptor_of(ty).last()),
        descriptor_of(ty).first() != '(' as u8,
        parsed_elementary(descriptor_of(ty)) == Some(ty),
{
    let text = descriptor_of(ty);
    match ty {
        AbiTypeView::Uint(bits) => {
            lemma_value_of_digits(bits);
            lemma_digits_are_plain(bits);
            let digits = decimal_digits(bits);
            assert(text[0] == 'u' as u8);
            assert(text.last() == digits.last());
            assert(text.take(4) =~= name_uint());
            assert(text.skip(4) =~= digits);
        },
        AbiTypeView::Int(bits) => {
            lemma_value_of_digits(bits);
            lemma_digits_are_plain(bits);
            let digits = decimal_digits(bits);
            assert(text[0] == 'i' as u8);
            assert(text.last() == digits.last());
            assert(text.take(3) =~= name_int());
            assert(text.skip(3) =~= digits);
            if has_prefix(text, name_uint()) {
                assert(text.take(4)[0] == text[0]);
            }
        },
        AbiTypeView::FixedBytes(len) => {
            lemma_value_of_digits(len);
            lemma_digits_are_plain(len);
            let digits = decimal_digits(len);
            assert(text[0] == 'b' as u8);
            assert(text[1] == 'y' as u8);
            assert(text.last() == digits.last());
            assert(text.take(5) =~= name_bytes());
            assert(text.skip(5) =~= digits);
            if has_prefix(text, name_uint()) {
                assert(text.take(4)[0] == text[0]);
            }
            if has_prefix(text, name_int()) {
                assert(text.take(3)[0] == text[0]);
            }
        },
        AbiTypeView::Address => {
            assert(text[0] == 'a' as u8);
        },
        AbiTypeView::Bool => {
            assert(text[0] == 'b' as u8);
            assert(text[1] == 'o' as u8);
        },
        _ => {},
    }
}

/// The canonical text of a type that the decoder knows names that type.
pub proof fn lemma_described_is_parsed(ty: AbiTypeView)
    requires
        ty.supported(),
    ensures
        parsed_type(descriptor_of(ty)) == Some(ty),
    decreases ty, 0nat,
{
    let text = descriptor_of(ty);
    match ty {
        AbiTypeView::String => {
            assert(text[0] == 's' as u8);
            assert(text.last() == text[5]);
        },
        AbiTypeView::Bytes => {
            assert(text[0] == 'b' as u8);
            assert(text[1] == 'y' as u8);
            assert(text.last() == text[4]);
        },
        AbiTypeView::Array(element) => {
            let inner = descriptor_of(*element);
            assert(text.last() == ']' as u8);
            assert(text[inner.len() as int] == '[' as u8);
            lemma_last_index_found(text, '[' as u8, inner.len() as int);
            assert(text.take(inner.len() as int) =~= inner);
            assert(text.subrange(inner.len() as int + 1, text.len() - 1) =~= Seq::<u8>::empty());
            lemma_described_is_parsed(*element);
        },
        AbiTypeView::FixedArray(element, count) => {
            let inner = descriptor_of(*element);
            let digits = decimal_digits(count);
            lemma_value_of_digits(count);
            lemma_digits_are_plain(count);
            assert(text.last() == ']' as u8);
            assert(text[inner.len() as int] == '[' as u8);
            assert forall|j: int| inner.len() < j < text.len() implies text[j] != '[' as u8 by {
                if j < text.len() - 1 {
                    assert(text[j] == digits[j - inner.len() - 1]);
                    assert(is_plain(digits[j - inner.len() - 1]));
                }
            }
            lemma_last_index_found(text, '[' as u8, inner.len() as int);
            assert(text.take(inner.len() as int) =~= inner);
            assert(text.subrange(inner.len() as int + 1, text.len() - 1) =~= digits);
            lemma_described_is_parsed(*element);
        },
        AbiTypeView::Tuple(members) => {
            let inner = joined_descriptors(members, 0);
            assert(text.first() == '(' as u8);
            assert(text.last() == ')' as u8);
            assert(text.subrange(1, text.len() - 1) =~= inner);
            lemma_joined_is_parsed(members, 0);
            assert(members.skip(0) =~= members);
        },
        _ => {
            lemma_described_elementary(ty);
        },
    }
}

/// The canonical texts of members, with commas between them, name those members.
proof fn lemma_joined_is_parsed(members: Seq<AbiTypeView>, from: nat)
    requires
        from < members.len(),
        forall|i: int| 0 <= i < members.len() ==> (#[trigger] members[i]).supported(),
    ensures
        parsed_members(joined_descriptors(members, from)) == Some(members.skip(from as int)),
    decreases members, members.len() - from,
{
    let text = joined_descriptors(members, from);
    let member = members[from as int];
    let first = descriptor_of(member);
    lemma_described_is_parsed(member);
    if from + 1 == members.len() {
        assert(occurs(text, 0, first));
        lemma_skip_descriptor(member, text, 0, 0);
        assert(text.take(text.len() as int) =~= text);
        assert(members.skip(from as int) =~= seq![member]);
    } else {
        let comma = seq![',' as u8];
        let rest = joined_descriptors(members, from + 1);
        assert(occurs(text, 0, first + comma + rest));
        lemma_occurs_split(text, 0, first + comma, rest);
        lemma_occurs_split(text, 0, first, comma);
        lemma_skip_descriptor(member, text, 0, 0);
        assert(text[first.len() as int] == comma[0]);
        assert(member_end(text, 0, 0) == first.len());
        assert(text.take(first.len() as int) =~= first);
        assert(text.skip(first.len() as int + 1) =~= rest);
        lemma_joined_is_parsed(members, from + 1);
        assert(seq![member] + members.skip(from as int + 1) =~= members.skip(from as int));
    }
}

/// Text names a type exactly when it is the canonical text of that type, and the
/// type is one that the decoder knows.
pub proof fn law_parsing_inverts_description(text: Seq<u8>, ty: AbiTypeView)
    ensures
        parsed_type(text) == Some(ty) <==> ty.supported() && descriptor_of(ty) == text,
{
    if parsed_type(text) == Some(ty) {
        lemma_parsed_is_described(text);
    }
    if ty.supported() && descriptor_of(ty) == text {
        lemma_described_is_parsed(ty);
    }
}

} // verus!
