//! The types that an event parameter can have, and how much room each takes.

use vstd::prelude::*;

verus! {

/// The mathematical model of an ABI type.
pub enum AbiTypeView {
    Address,
    Bool,
    Uint(nat),
    Int(nat),
    FixedBytes(nat),
    Bytes,
    String,
    Array(Box<AbiTypeView>),
    FixedArray(Box<AbiTypeView>, nat),
    Tuple(Seq<AbiTypeView>),
}

/// An ABI type, as declared for one parameter of an event.
#[derive(Debug, PartialEq, Eq)]
pub enum AbiType {
    /// `address`: 20 bytes.
    Address,
    /// `bool`.
    Bool,
    /// `uint<bits>`.
    Uint(u16),
    /// `int<bits>`.
    Int(u16),
    /// `bytes<len>`: a fixed number of bytes, at most 32.
    FixedBytes(u8),
    /// `bytes`: any number of bytes.
    Bytes,
    /// `string`: text of any length.
    String,
    /// `<element>[]`: any number of elements.
    Array(Box<AbiType>),
    /// `<element>[<count>]`: a fixed number of elements.
    FixedArray(Box<AbiType>, usize),
    /// `(<member>,...)`: one value of each member type.
    Tuple(Vec<AbiType>),
}

impl AbiType {
    /// The model of this type.
    pub open spec fn model(&self) -> AbiTypeView
        decreases self,
    {
        match self {
            AbiType::Address => AbiTypeView::Address,
            AbiType::Bool => AbiTypeView::Bool,
            AbiType::Uint(bits) => AbiTypeView::Uint(*bits as nat),
            AbiType::Int(bits) => AbiTypeView::Int(*bits as nat),
            AbiType::FixedBytes(len) => AbiTypeView::FixedBytes(*len as nat),
            AbiType::Bytes => AbiTypeView::Bytes,
            AbiType::String => AbiTypeView::String,
            AbiType::Array(element) => AbiTypeView::Array(Box::new(element.model())),
            AbiType::FixedArray(element, count) => AbiTypeView::FixedArray(
                Box::new(element.model()),
                *count as nat,
            ),
            AbiType::Tuple(members) => AbiTypeView::Tuple(
                Seq::new(
                    members@.len(),
                    |i: int|
                        if 0 <= i < members@.len() {
                            members@[i].model()
                        } else {
                            AbiTypeView::Bool
                        },
                ),
            ),
        }
    }
}

impl View for AbiType {
    type V = AbiTypeView;

    open spec fn view(&self) -> AbiTypeView {
        self.model()
    }
}

/// The models of a list of types.
pub open spec fn models_of(types: Seq<AbiType>) -> Seq<AbiTypeView> {
    Seq::new(types.len(), |i: int| types[i]@)
}

impl AbiTypeView {
    /// Whether this is a type that the decoder knows: integers of 8 to 256 bits in
    /// steps of 8, `bytes1` to `bytes32`, no empty tuple, and no array of fixed length
    /// zero or of a length beyond what the machine can count.
    pub open spec fn supported(self) -> bool
        decreases self,
    {
        match self {
            AbiTypeView::Uint(bits) => 8 <= bits <= 256 && bits % 8 == 0,
            AbiTypeView::Int(bits) => 8 <= bits <= 256 && bits % 8 == 0,
            AbiTypeView::FixedBytes(len) => 1 <= len <= 32,
            AbiTypeView::Array(element) => element.supported(),
            AbiTypeView::FixedArray(element, count) => 1 <= count <= usize::MAX
                && element.supported(),
            AbiTypeView::Tuple(members) => members.len() >= 1 && forall|i: int|
                0 <= i < members.len() ==> (#[trigger] members[i]).supported(),
            _ => true,
        }
    }

    /// Whether a value of this type has no fixed size, so that it is encoded in the
    /// tail and its head slot holds an offset.
    pub open spec fn is_dynamic(self) -> bool
        decreases self,
    {
        match self {
            AbiTypeView::Bytes | AbiTypeView::String | AbiTypeView::Array(_) => true,
            AbiTypeView::FixedArray(element, _) => element.is_dynamic(),
            AbiTypeView::Tuple(members) => exists|i: int|
                0 <= i < members.len() && (#[trigger] members[i]).is_dynamic(),
            _ => false,
        }
    }

    /// The number of bytes that a value of this type takes in the head.
    pub open spec fn head_size(self) -> nat
        decreases self, 0nat,
    {
        if self.is_dynamic() {
            32
        } else {
            match self {
                AbiTypeView::FixedArray(element, count) => count * element.head_size(),
                AbiTypeView::Tuple(members) => members_head_size(members, members.len()),
                _ => 32,
            }
        }
    }

    /// Whether a value of this type takes one word in a topic as it is. Of any other
    /// type a topic holds only a digest.
    pub open spec fn is_elementary(self) -> bool {
        match self {
            AbiTypeView::Address
            | AbiTypeView::Bool
            | AbiTypeView::Uint(_)
            | AbiTypeView::Int(_)
            | AbiTypeView::FixedBytes(_) => true,
            _ => false,
        }
    }
}

/// The number of bytes that the first `count` of `members` take in the head.
pub open spec fn members_head_size(members: Seq<AbiTypeView>, count: nat) -> nat
    decreases members, count,
{
    if count == 0 || count > members.len() {
        0
    } else {
        members_head_size(members, (count - 1) as nat) + members[count - 1].head_size()
    }
}

/// The more members, the more room their heads take.
pub proof fn lemma_members_head_size_monotonic(members: Seq<AbiTypeView>, i: nat, j: nat)
    requires
        i <= j <= members.len(),
    ensures
        members_head_size(members, i) <= members_head_size(members, j),
    decreases j,
{
    if i < j {
        lemma_members_head_size_monotonic(members, i, (j - 1) as nat);
    }
}

/// A type that the decoder knows takes at least one word in the head.
pub proof fn lemma_supported_head_size(ty: AbiTypeView)
    requires
        ty.supported(),
    ensures
        ty.head_size() >= 32,
    decreases ty,
{
    if !ty.is_dynamic() {
        match ty {
            AbiTypeView::FixedArray(element, count) => {
                lemma_supported_head_size(*element);
                assert(count * element.head_size() >= 32) by (nonlinear_arith)
                    requires
                        count >= 1,
                        element.head_size() >= 32,
                ;
            },
            AbiTypeView::Tuple(members) => {
                lemma_supported_head_size(members[0]);
                lemma_members_head_size_monotonic(members, 1, members.len());
                assert(members_head_size(members, 1) == members_head_size(members, 0)
                    + members[0].head_size());
            },
            _ => {},
        }
    }
}

impl AbiType {
    /// A copy of this type.
    pub fn duplicate(&self) -> (out: AbiType)
        ensures
            out@ == self@,
        decreases self,
    {
        match self {
            AbiType::Address => AbiType::Address,
            AbiType::Bool => AbiType::Bool,
            AbiType::Uint(bits) => AbiType::Uint(*bits),
            AbiType::Int(bits) => AbiType::Int(*bits),
            AbiType::FixedBytes(len) => AbiType::FixedBytes(*len),
            AbiType::Bytes => AbiType::Bytes,
            AbiType::String => AbiType::String,
            AbiType::Array(element) => AbiType::Array(Box::new(element.duplicate())),
            AbiType::FixedArray(element, count) => AbiType::FixedArray(
                Box::new(element.duplicate()),
                *count,
            ),
            AbiType::Tuple(members) => {
                let mut copies: Vec<AbiType> = Vec::new();
                let mut i: usize = 0;
                while i < members.len()
                    invariant
                        i <= members.len(),
                        copies@.len() == i,
                        self is Tuple,
                        self->Tuple_0 == *members,
                        forall|j: int| 0 <= j < i ==> copies@[j]@ == members@[j]@,
                    decreases members.len() - i,
                {
                    proof {
                        vstd::std_specs::vec::axiom_vec_index_decreases(*members, i as int);
                    }
                    copies.push(members[i].duplicate());
                    i += 1;
                }
                let out = AbiType::Tuple(copies);
                assert(out@->Tuple_0 =~= self@->Tuple_0);
                out
            },
        }
    }

    /// Whether this is a type that the decoder knows.
    pub fn is_supported(&self) -> (out: bool)
        ensures
            out == self@.supported(),
        decreases self,
    {
        match self {
            AbiType::Uint(bits) => 8 <= *bits && *bits <= 256 && *bits % 8 == 0,
            AbiType::Int(bits) => 8 <= *bits && *bits <= 256 && *bits % 8 == 0,
            AbiType::FixedBytes(len) => 1 <= *len && *len <= 32,
            AbiType::Array(element) => element.is_supported(),
            AbiType::FixedArray(element, count) => *count >= 1 && element.is_supported(),
            AbiType::Tuple(members) => {
                if members.len() == 0 {
                    return false;
                }
                let mut i: usize = 0;
                while i < members.len()
                    invariant
                        i <= members.len(),
                        self is Tuple,
                        self->Tuple_0 == *members,
                        forall|j: int| 0 <= j < i ==> (#[trigger] self@->Tuple_0[j]).supported(),
                    decreases members.len() - i,
                {
                    proof {
                        vstd::std_specs::vec::axiom_vec_index_decreases(*members, i as int);
                    }
                    if !members[i].is_supported() {
                        assert(!self@->Tuple_0[i as int].supported());
                        return false;
                    }
                    i += 1;
                }
                true
            },
            _ => true,
        }
    }

    /// Whether a value of this type is encoded in the tail.
    pub fn is_dynamic(&self) -> (out: bool)
        ensures
            out == self@.is_dynamic(),
        decreases self,
    {
        match self {
            AbiType::Bytes | AbiType::String | AbiType::Array(_) => true,
            AbiType::FixedArray(element, _) => element.is_dynamic(),
            AbiType::Tuple(members) => {
                let mut i: usize = 0;
                while i < members.len()
                    invariant
                        i <= members.len(),
                        self is Tuple,
                        self->Tuple_0 == *members,
                        forall|j: int| 0 <= j < i ==> !(#[trigger] self@->Tuple_0[j]).is_dynamic(),
                    decreases members.len() - i,
                {
                    proof {
                        vstd::std_specs::vec::axiom_vec_index_decreases(*members, i as int);
                    }
                    if members[i].is_dynamic() {
                        assert(self@->Tuple_0[i as int].is_dynamic());
                        return true;
                    }
                    i += 1;
                }
                false
            },
            _ => false,
        }
    }

    /// Whether a value of this type takes one word in a topic as it is.
    pub fn is_elementary(&self) -> (out: bool)
        ensures
            out == self@.is_elementary(),
    {
        match self {
            AbiType::Address
            | AbiType::Bool
            | AbiType::Uint(_)
            | AbiType::Int(_)
            | AbiType::FixedBytes(_) => true,
            _ => false,
        }
    }

    /// The number of bytes that a value of this type takes in the head, or `None`
    /// where that number does not fit a `usize`.
    pub fn head_size(&self) -> (out: Option<usize>)
        ensures
            match out {
                Some(size) => size == self@.head_size(),
                None => self@.head_size() > usize::MAX,
            },
        decreases self,
    {
        if self.is_dynamic() {
            return Some(32);
        }
        match self {
            AbiType::FixedArray(element, count) => {
                if *count == 0 {
                    assert(0 * element@.head_size() == 0);
                    return Some(0);
                }
                match element.head_size() {
                    None => {
                        assert(*count * element@.head_size() > usize::MAX) by (nonlinear_arith)
                            requires
                                *count >= 1,
                                element@.head_size() > usize::MAX,
                        ;
                        None
                    },
                    Some(each) => count.checked_mul(each),
                }
            },
            AbiType::Tuple(members) => {
                assert(self@->Tuple_0 =~= models_of(members@));
                members_head_span(members)
            },
            _ => Some(32),
        }
    }
}

/// The number of bytes that the heads of `members` take together, or `None` where
/// that number does not fit a `usize`.
pub fn members_head_span(members: &Vec<AbiType>) -> (out: Option<usize>)
    ensures
        match out {
            Some(size) => size == members_head_size(models_of(members@), members@.len()),
            None => members_head_size(models_of(members@), members@.len()) > usize::MAX,
        },
    decreases members,
{
    let ghost models = models_of(members@);
    let mut total: usize = 0;
    let mut i: usize = 0;
    while i < members.len()
        invariant
            i <= members.len(),
            models == models_of(members@),
            total == members_head_size(models, i as nat),
        decreases members.len() - i,
    {
        proof {
            vstd::std_specs::vec::axiom_vec_index_decreases(*members, i as int);
            lemma_members_head_size_monotonic(models, (i + 1) as nat, members.len() as nat);
            assert(members_head_size(models, (i + 1) as nat) == total + models[i as int].head_size());
        }
        let next = match members[i].head_size() {
            None => None,
            Some(size) => total.checked_add(size),
        };
        match next {
            None => {
                return None;
            },
            Some(sum) => {
                total = sum;
            },
        }
        i += 1;
    }
    Some(total)
}

impl Clone for AbiType {
    fn clone(&self) -> (out: AbiType)
        ensures
            out@ == self@,
    {
        self.duplicate()
    }
}

} // verus!
