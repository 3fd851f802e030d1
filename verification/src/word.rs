//! Big-endian words: the 32-byte unit in which every value is encoded.

use vstd::prelude::*;

verus! {

/// Number of bytes in one word.
pub const WORD_SIZE: usize = 32;

/// Two to the power 128, the weight of the high half of a word.
pub open spec fn two_pow_128() -> nat {
    0x1_0000_0000_0000_0000_0000_0000_0000_0000nat
}

/// Two to the power 255, the smallest word value with the sign bit set.
pub open spec fn two_pow_255() -> nat {
    0x8000_0000_0000_0000_0000_0000_0000_0000nat * two_pow_128()
}

/// Two to the power 256, one more than the largest word value.
pub open spec fn two_pow_256() -> nat {
    two_pow_128() * two_pow_128()
}

/// 256 to the power `n`.
pub open spec fn pow256(n: nat) -> nat
    decreases n,
{
    if n == 0 {
        1
    } else {
        256 * pow256((n - 1) as nat)
    }
}

/// The number that `bytes` spells in base 256, most significant byte first.
pub open spec fn be_value(bytes: Seq<u8>) -> nat
    decreases bytes.len(),
{
    if bytes.len() == 0 {
        0
    } else {
        be_value(bytes.drop_last()) * 256 + bytes.last() as nat
    }
}

/// The `len` bytes that spell `value` in base 256, most significant byte first
/// (the low `len` digits of it, where it has more).
pub open spec fn be_bytes(value: nat, len: nat) -> Seq<u8>
    decreases len,
{
    if len == 0 {
        Seq::empty()
    } else {
        be_bytes(value / 256, (len - 1) as nat).push((value % 256) as u8)
    }
}

/// Whether a whole word of `data` starts at `at`.
pub open spec fn has_word(data: Seq<u8>, at: int) -> bool {
    0 <= at && at + 32 <= data.len()
}

/// The word of `data` that starts at `at`.
pub open spec fn word_at(data: Seq<u8>, at: int) -> Seq<u8> {
    data.subrange(at, at + 32)
}

/// The number that a word stands for when read as two's complement.
pub open spec fn signed_value(word: Seq<u8>) -> int {
    if be_value(word) >= two_pow_255() {
        be_value(word) - two_pow_256()
    } else {
        be_value(word) as int
    }
}

pub proof fn lemma_pow256_values()
    ensures
        pow256(16) == two_pow_128(),
        pow256(32) == two_pow_256(),
        pow256(8) == 0x1_0000_0000_0000_0000,
        pow256(4) == 0x1_0000_0000,
{
    reveal_with_fuel(pow256, 5);
    assert(pow256(4) == 0x1_0000_0000);
    assert(pow256(8) == 0x1_0000_0000 * pow256(4));
    assert(pow256(12) == 0x1_0000_0000 * pow256(8));
    assert(pow256(16) == 0x1_0000_0000 * pow256(12));
    lemma_pow256_add(16, 16);
}

proof fn lemma_pow256_add(a: nat, b: nat)
    ensures
        pow256(a + b) == pow256(a) * pow256(b),
    decreases b,
{
    if b == 0 {
        assert(pow256(a) * 1 == pow256(a));
    } else {
        lemma_pow256_add(a, (b - 1) as nat);
        assert(pow256(a + b) == 256 * pow256((a + b - 1) as nat));
        assert(256 * (pow256(a) * pow256((b - 1) as nat)) == pow256(a) * (256 * pow256(
            (b - 1) as nat,
        ))) by (nonlinear_arith);
    }
}

proof fn lemma_pow256_positive(n: nat)
    ensures
        pow256(n) >= 1,
    decreases n,
{
    if n > 0 {
        lemma_pow256_positive((n - 1) as nat);
    }
}

/// A byte string of length `n` spells a number below 256 to the `n`.
proof fn lemma_be_value_bound(bytes: Seq<u8>)
    ensures
        be_value(bytes) < pow256(bytes.len()),
    decreases bytes.len(),
{
    if bytes.len() > 0 {
        lemma_be_value_bound(bytes.drop_last());
    }
}

/// The value of a concatenation: the left part is shifted by the length of the right part.
proof fn lemma_be_value_concat(left: Seq<u8>, right: Seq<u8>)
    ensures
        be_value(left + right) == be_value(left) * pow256(right.len()) + be_value(right),
    decreases right.len(),
{
    if right.len() == 0 {
        assert(left + right =~= left);
        assert(be_value(left) * 1 == be_value(left));
    } else {
        let whole = left + right;
        assert(whole.drop_last() =~= left + right.drop_last());
        assert(whole.last() == right.last());
        lemma_be_value_concat(left, right.drop_last());
        let l = be_value(left) as int;
        let p = pow256((right.len() - 1) as nat) as int;
        let r = be_value(right.drop_last()) as int;
        assert((l * p + r) * 256 == l * (256 * p) + r * 256) by (nonlinear_arith);
    }
}

/// A number is spelled in as many bytes as were asked for.
pub proof fn lemma_be_bytes_len(value: nat, len: nat)
    ensures
        be_bytes(value, len).len() == len,
    decreases len,
{
    if len > 0 {
        lemma_be_bytes_len(value / 256, (len - 1) as nat);
    }
}

/// Spelling a number and reading it back gives the number, if it fits.
pub proof fn lemma_be_bytes_value(value: nat, len: nat)
    requires
        value < pow256(len),
    ensures
        be_bytes(value, len).len() == len,
        be_value(be_bytes(value, len)) == value,
    decreases len,
{
    if len > 0 {
        let rest = be_bytes(value / 256, (len - 1) as nat);
        lemma_be_bytes_value(value / 256, (len - 1) as nat);
        assert(be_bytes(value, len).drop_last() =~= rest);
    }
}

/// An unsigned number of up to 256 bits, held as two halves of 128 bits.
#[derive(Clone, Copy, Debug, PartialEq, Eq)]
pub struct Magnitude {
    /// The upper 128 bits.
    pub high: u128,
    /// The lower 128 bits.
    pub low: u128,
}

impl View for Magnitude {
    type V = nat;

    open spec fn view(&self) -> nat {
        self.high as nat * two_pow_128() + self.low as nat
    }
}

/// Reads the 16 bytes of `data` that start at `at` as one number.
fn read_half(data: &[u8], at: usize) -> (out: u128)
    requires
        at + 16 <= data@.len(),
    ensures
        out == be_value(data@.subrange(at as int, at + 16)),
{
    let len = data.len();
    let mut acc: u128 = 0;
    let mut i: usize = 0;
    proof {
        lemma_pow256_values();
        assert(data@.subrange(at as int, at as int) =~= Seq::<u8>::empty());
    }
    while i < 16
        invariant
            i <= 16,
            len == data@.len(),
            at + 16 <= len,
            acc == be_value(data@.subrange(at as int, at + i)),
            pow256(16) == two_pow_128(),
        decreases 16 - i,
    {
        let byte = data[at + i];
        proof {
            let before = data@.subrange(at as int, at + i);
            let after = data@.subrange(at as int, at + i + 1);
            assert(after.drop_last() =~= before);
            assert(after.last() == byte);
            lemma_be_value_bound(after);
            lemma_pow256_add((i + 1) as nat, (15 - i) as nat);
            lemma_pow256_positive((15 - i) as nat);
            assert(be_value(after) < pow256(16)) by (nonlinear_arith)
                requires
                    be_value(after) < pow256((i + 1) as nat),
                    pow256(16) == pow256((i + 1) as nat) * pow256((15 - i) as nat),
                    pow256((15 - i) as nat) >= 1,
            ;
        }
        acc = acc * 256 + byte as u128;
        i += 1;
    }
    acc
}

impl Magnitude {
    /// Reads the word of `data` that starts at `at`.
    pub fn from_word(data: &[u8], at: usize) -> (out: Magnitude)
        requires
            has_word(data@, at as int),
        ensures
            out@ == be_value(word_at(data@, at as int)),
    {
        let len = data.len();
        assert(at + 32 <= len);
        let high = read_half(data, at);
        let low = read_half(data, at + 16);
        proof {
            let word = word_at(data@, at as int);
            let left = data@.subrange(at as int, at + 16);
            let right = data@.subrange(at + 16, at + 32);
            assert(word =~= left + right);
            lemma_be_value_concat(left, right);
            lemma_pow256_values();
        }
        Magnitude { high, low }
    }

    /// The number as a `usize`, where it fits.
    pub fn to_usize(&self) -> (out: Option<usize>)
        ensures
            match out {
                Some(n) => n == self@,
                None => self@ > usize::MAX,
            },
    {
        if self.high == 0 && self.low <= usize::MAX as u128 {
            Some(self.low as usize)
        } else {
            proof {
                if self.high > 0 {
                    assert(self.high as nat * two_pow_128() >= two_pow_128()) by (nonlinear_arith)
                        requires
                            self.high >= 1,
                    ;
                }
            }
            None
        }
    }

    /// The number as a `u128`, where it fits.
    pub fn to_u128(&self) -> (out: Option<u128>)
        ensures
            match out {
                Some(n) => n == self@,
                None => self@ > u128::MAX,
            },
    {
        if self.high == 0 {
            Some(self.low)
        } else {
            proof {
                assert(self.high as nat * two_pow_128() >= two_pow_128()) by (nonlinear_arith)
                    requires
                        self.high >= 1,
                ;
            }
            None
        }
    }

    /// Whether the number is zero.
    pub fn is_zero(&self) -> (out: bool)
        ensures
            out == (self@ == 0),
    {
        proof {
            if self.high > 0 {
                assert(self.high as nat * two_pow_128() >= two_pow_128()) by (nonlinear_arith)
                    requires
                        self.high >= 1,
                ;
            }
        }
        self.high == 0 && self.low == 0
    }

    /// The number that, added to this one, gives two to the power 256:
    /// the size of a negative word read as two's complement.
    pub fn negated(&self) -> (out: Magnitude)
        requires
            self@ > 0,
        ensures
            out@ == two_pow_256() - self@,
    {
        let high: u128 = self.high;
        let low: u128 = self.low;
        let flipped_high: u128 = !high;
        let flipped_low: u128 = !low;
        assert(flipped_high == 0xffff_ffff_ffff_ffff_ffff_ffff_ffff_ffffu128 - high) by (bit_vector)
            requires
                flipped_high == !high,
        ;
        assert(flipped_low == 0xffff_ffff_ffff_ffff_ffff_ffff_ffff_ffffu128 - low) by (bit_vector)
            requires
                flipped_low == !low,
        ;
        proof {
            let h = self.high as int;
            let t = two_pow_128() as int;
            assert((t - 1 - h) * t == t * t - t - h * t) by (nonlinear_arith);
            assert((t - h) * t == t * t - h * t) by (nonlinear_arith);
            if self.low == 0 {
                assert(h * t >= t) by (nonlinear_arith)
                    requires
                        h >= 1,
                        t >= 0,
                ;
            }
        }
        if self.low == 0 {
            Magnitude { high: flipped_high + 1, low: 0 }
        } else {
            Magnitude { high: flipped_high, low: flipped_low + 1 }
        }
    }
}

} // verus!
