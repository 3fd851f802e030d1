//! Text, compared by the bytes that encode it.

use vstd::prelude::*;
use vstd::utf8::{decode_utf8, encode_utf8, encode_utf8_decode_utf8};

verus! {

/// Two texts with the same encoding are the same text.
proof fn lemma_encoding_tells_apart(a: Seq<char>, b: Seq<char>)
    requires
        encode_utf8(a) == encode_utf8(b),
    ensures
        a == b,
{
    encode_utf8_decode_utf8(a);
    encode_utf8_decode_utf8(b);
    assert(decode_utf8(encode_utf8(a)) == decode_utf8(encode_utf8(b)));
}

/// Whether two byte strings are equal.
pub fn bytes_eq(a: &[u8], b: &[u8]) -> (out: bool)
    ensures
        out == (a@ == b@),
{
    if a.len() != b.len() {
        return false;
    }
    let mut i: usize = 0;
    while i < a.len()
        invariant
            i <= a.len(),
            a@.len() == b@.len(),
            forall|j: int| 0 <= j < i ==> a@[j] == b@[j],
        decreases a.len() - i,
    {
        if a[i] != b[i] {
            return false;
        }
        i += 1;
    }
    assert(a@ =~= b@);
    true
}

/// Whether two texts are equal.
pub fn text_eq(a: &str, b: &str) -> (out: bool)
    ensures
        out == (a@ == b@),
{
    let same = bytes_eq(a.as_bytes(), b.as_bytes());
    proof {
        if same {
            lemma_encoding_tells_apart(a@, b@);
        }
    }
    same
}

/// A copy of a text that may be absent.
pub fn copy_optional(text: &Option<String>) -> (out: Option<String>)
    ensures
        optional_text(out) == optional_text(*text),
{
    match text {
        Some(t) => Some(t.clone()),
        None => None,
    }
}

/// The characters of a text that may be absent.
pub open spec fn optional_text(text: Option<String>) -> Option<Seq<char>> {
    match text {
        Some(t) => Some(t@),
        None => None,
    }
}

/// Whether `piece` stands in `text` at `at`.
pub open spec fn occurs(text: Seq<u8>, at: int, piece: Seq<u8>) -> bool {
    &&& 0 <= at
    &&& at + piece.len() <= text.len()
    &&& forall|k: int| 0 <= k < piece.len() ==> text[at + k] == #[trigger] piece[k]
}

/// Where two pieces stand together, each of them stands.
pub proof fn lemma_occurs_split(text: Seq<u8>, at: int, left: Seq<u8>, right: Seq<u8>)
    requires
        occurs(text, at, left + right),
    ensures
        occurs(text, at, left),
        occurs(text, at + left.len(), right),
{
    let both = left + right;
    assert forall|k: int| 0 <= k < left.len() implies text[at + k] == #[trigger] left[k] by {
        assert(both[k] == left[k]);
    }
    assert forall|k: int| 0 <= k < right.len() implies text[at + left.len() + k]
        == #[trigger] right[k] by {
        assert(both[left.len() + k] == right[k]);
    }
}

/// What stands in a piece stands in the text in which the piece stands.
pub proof fn lemma_occurs_within(text: Seq<u8>, at: int, whole: Seq<u8>, offset: int, piece: Seq<u8>)
    requires
        occurs(text, at, whole),
        occurs(whole, offset, piece),
    ensures
        occurs(text, at + offset, piece),
{
    assert forall|k: int| 0 <= k < piece.len() implies text[at + offset + k] == #[trigger] piece[k] by {
        assert(whole[offset + k] == piece[k]);
        assert(text[at + (offset + k)] == whole[offset + k]);
    }
}

/// What stands in the text is a part of it.
pub proof fn lemma_occurs_is_part(text: Seq<u8>, at: int, piece: Seq<u8>)
    requires
        occurs(text, at, piece),
    ensures
        text.subrange(at, at + piece.len()) == piece,
{
    assert(text.subrange(at, at + piece.len()) =~= piece);
}

/// Each of two pieces stands in what they make together.
pub proof fn lemma_occurs_concat(left: Seq<u8>, right: Seq<u8>)
    ensures
        occurs(left + right, 0, left),
        occurs(left + right, left.len() as int, right),
{
    let both = left + right;
    assert forall|k: int| 0 <= k < left.len() implies both[0 + k] == #[trigger] left[k] by {}
    assert forall|k: int| 0 <= k < right.len() implies both[left.len() + k] == #[trigger] right[k] by {}
}

} // verus!
