use vstd::prelude::*;

use crate::error::{eof, BinverseError, BinverseResult};
use crate::containers::lemma_var_size_round_trip;
use crate::primitives::{le_bytes, le_value, lemma_le_round_trip, lemma_pow256_values};
use crate::streams::{Deserializer, Serializer};
use crate::varint::{varint_decoding, varint_encoding};

verus! {

/// The width of the length prefix of a variable-sized container.
#[derive(Clone, Copy, Debug, PartialEq, Eq, Structural)]
pub enum SizeBytes {
    /// The length is written as a `u8`.
    One,
    /// The length is written as a `u16`.
    Two,
    /// The length is written as a `u32`.
    Four,
    /// The length is written as a `u64`.
    Eight,
    /// The length is written as a varint.
    Var,
}

impl SizeBytes {
    /// The largest length this prefix can carry.
    pub open spec fn max_spec(&self) -> nat {
        match self {
            SizeBytes::One => 0xff,
            SizeBytes::Two => 0xffff,
            SizeBytes::Four => 0xffff_ffff,
            SizeBytes::Eight => 0xffff_ffff_ffff_ffff,
            SizeBytes::Var => 0xffff_ffff_ffff_ffff,
        }
    }

    /// The name of the variant.
    pub open spec fn name(&self) -> Seq<char> {
        match self {
            SizeBytes::One => "One"@,
            SizeBytes::Two => "Two"@,
            SizeBytes::Four => "Four"@,
            SizeBytes::Eight => "Eight"@,
            SizeBytes::Var => "Var"@,
        }
    }

    /// Returns the name of the variant.
    pub fn to_str(&self) -> (r: &'static str)
        ensures
            r@ == self.name(),
    {
        proof {
            reveal_strlit("One");
            reveal_strlit("Two");
            reveal_strlit("Four");
            reveal_strlit("Eight");
            reveal_strlit("Var");
        }
        match self {
            SizeBytes::One => "One",
            SizeBytes::Two => "Two",
            SizeBytes::Four => "Four",
            SizeBytes::Eight => "Eight",
            SizeBytes::Var => "Var",
        }
    }

    /// The fixed width of `bytes` bytes, if there is one.
    pub fn from_width(bytes: u32) -> (r: Option<SizeBytes>)
        ensures
            bytes == 1 ==> r == Some(SizeBytes::One),
            bytes == 2 ==> r == Some(SizeBytes::Two),
            bytes == 4 ==> r == Some(SizeBytes::Four),
            bytes == 8 ==> r == Some(SizeBytes::Eight),
            bytes != 1 && bytes != 2 && bytes != 4 && bytes != 8 ==> r is None,
    {
        match bytes {
            1 => Some(SizeBytes::One),
            2 => Some(SizeBytes::Two),
            4 => Some(SizeBytes::Four),
            8 => Some(SizeBytes::Eight),
            _ => None,
        }
    }

    /// Returns the largest length this prefix can carry.
    pub fn maximum(&self) -> (r: u64)
        ensures
            r == self.max_spec(),
    {
        match self {
            SizeBytes::One => 0xff,
            SizeBytes::Two => 0xffff,
            SizeBytes::Four => 0xffff_ffff,
            SizeBytes::Eight => 0xffff_ffff_ffff_ffff,
            SizeBytes::Var => 0xffff_ffff_ffff_ffff,
        }
    }
}

/// The length prefix that carries `n` under the width `sb`.
pub open spec fn size_encoding(sb: SizeBytes, n: nat) -> Seq<u8> {
    match sb {
        SizeBytes::One => le_bytes(n, 1),
        SizeBytes::Two => le_bytes(n, 2),
        SizeBytes::Four => le_bytes(n, 4),
        SizeBytes::Eight => le_bytes(n, 8),
        SizeBytes::Var => varint_encoding(n as u64),
    }
}

/// Reading `w` bytes as a little-endian length.
pub open spec fn fixed_size_decoding(data: Seq<u8>, w: nat) -> BinverseResult<(nat, nat)> {
    if data.len() < w {
        Err(eof())
    } else {
        Ok((le_value(data.subrange(0, w as int)), w))
    }
}

/// Reading a length prefix written under the width `sb` from the start of
/// `data`: the length and the prefix's size in bytes. A length this machine
/// cannot address is invalid data.
pub open spec fn size_decoding(sb: SizeBytes, data: Seq<u8>) -> BinverseResult<(nat, nat)> {
    let read = match sb {
        SizeBytes::One => fixed_size_decoding(data, 1),
        SizeBytes::Two => fixed_size_decoding(data, 2),
        SizeBytes::Four => fixed_size_decoding(data, 4),
        SizeBytes::Eight => fixed_size_decoding(data, 8),
        SizeBytes::Var => match varint_decoding(data) {
            Ok((v, k)) => Ok((v as nat, k)),
            Err(e) => Err(e),
        },
    };
    match read {
        Ok((n, k)) => if n > usize::MAX {
            Err(BinverseError::InvalidData)
        } else {
            Ok((n, k))
        },
        Err(e) => Err(e),
    }
}

/// A value that writes itself completely, with no length given from outside.
/// What it writes is a function of its model, its deep view.
pub trait Serialize: DeepView {
    /// The bytes a value with model `v` writes.
    spec fn encoding(v: Self::V) -> Seq<u8>;

    /// Every length inside the value with model `v` fits in a `usize`, as it
    /// does for every value held in memory.
    spec fn fits(v: Self::V) -> bool;

    /// Appends the encoding of `self` to `s`.
    fn serialize(&self, s: &mut Serializer) -> (r: BinverseResult<()>)
        ensures
            r is Ok,
            Self::fits(self.deep_view()),
            final(s).rev() == old(s).rev(),
            final(s).bytes() == old(s).bytes() + Self::encoding(self.deep_view()),
    ;
}

/// A value that reads itself completely from the front of a stream.
pub trait Deserialize: DeepView + Sized {
    /// Reading a value from the start of `data`: the model of what is read
    /// and the number of bytes it takes, or the error.
    spec fn decoding(data: Seq<u8>) -> BinverseResult<(Self::V, nat)>;

    /// Reads a value from `d`.
    fn deserialize(d: &mut Deserializer) -> (r: BinverseResult<Self>)
        ensures
            final(d).rev() == old(d).rev(),
            match Self::decoding(old(d).rest()) {
                Ok((v, n)) => r matches Ok(x) && x.deep_view() == v && n <= old(d).rest().len()
                    && final(d).rest()
                    == old(d).rest().subrange(n as int, old(d).rest().len() as int),
                Err(e) => r == Err::<Self, BinverseError>(e),
            },
    ;
}

/// A type whose decoding reads back what its encoding wrote.
pub trait RoundTrip: Serialize + Deserialize {
    /// Decoding the encoding of `self`, whatever follows it, gives the model
    /// of `self` and consumes exactly the encoding.
    proof fn lemma_round_trip(&self, rest: Seq<u8>)
        requires
            Self::fits(self.deep_view()),
        ensures
            Self::decoding(Self::encoding(self.deep_view()) + rest) == Ok::<
                (Self::V, nat),
                BinverseError,
            >((self.deep_view(), Self::encoding(self.deep_view()).len())),
    ;
}

/// A variable-sized container that knows its element count and writes its
/// elements without a length prefix.
pub trait SizedSerialize: Serialize {
    /// The number of elements of a container with model `v`.
    spec fn count(v: Self::V) -> nat;

    /// The bytes of the first `n` elements of a container with model `v`.
    spec fn elements_encoding(v: Self::V, n: nat) -> Seq<u8>;

    /// Appends the first `size` elements of `self` to `s`.
    fn serialize_sized(&self, s: &mut Serializer, size: usize) -> (r: BinverseResult<()>)
        requires
            size <= Self::count(self.deep_view()),
        ensures
            r is Ok,
            size == Self::count(self.deep_view()) ==> Self::fits(self.deep_view()),
            final(s).rev() == old(s).rev(),
            final(s).bytes() == old(s).bytes() + Self::elements_encoding(
                self.deep_view(),
                size as nat,
            ),
    ;

    /// The current number of elements.
    fn size(&self) -> (r: usize)
        ensures
            r == Self::count(self.deep_view()),
    ;
}

/// A variable-sized container that reads a given number of elements.
pub trait SizedDeserialize: Deserialize {
    /// Reading `n` elements from the start of `data`: the model of the
    /// container and the number of bytes they take, or the error.
    spec fn elements_decoding(data: Seq<u8>, n: nat) -> BinverseResult<(Self::V, nat)>;

    /// Reads `size` elements from `d`.
    fn deserialize_sized(d: &mut Deserializer, size: usize) -> (r: BinverseResult<Self>)
        ensures
            final(d).rev() == old(d).rev(),
            match Self::elements_decoding(old(d).rest(), size as nat) {
                Ok((v, n)) => r matches Ok(x) && x.deep_view() == v && n <= old(d).rest().len()
                    && final(d).rest()
                    == old(d).rest().subrange(n as int, old(d).rest().len() as int),
                Err(e) => r == Err::<Self, BinverseError>(e),
            },
    ;
}

/// A container whose elements read back what they wrote.
pub trait SizedRoundTrip: SizedSerialize + SizedDeserialize {
    /// Reading back all elements of `self`, whatever follows them, gives the
    /// model of `self` and consumes exactly their bytes.
    proof fn lemma_elements_round_trip(&self, rest: Seq<u8>)
        requires
            Self::fits(self.deep_view()),
        ensures
            Self::count(self.deep_view()) <= usize::MAX,
            Self::elements_decoding(
                Self::elements_encoding(self.deep_view(), Self::count(self.deep_view())) + rest,
                Self::count(self.deep_view()),
            ) == Ok::<(Self::V, nat), BinverseError>(
                (
                    self.deep_view(),
                    Self::elements_encoding(
                        self.deep_view(),
                        Self::count(self.deep_view()),
                    ).len(),
                ),
            ),
    ;
}

/// Decoding the encoding of any value gives back its model, and consumes
/// exactly the bytes written for it, whatever follows them.
pub proof fn round_trip<T: RoundTrip>(value: &T, rest: Seq<u8>)
    requires
        T::fits(value.deep_view()),
    ensures
        T::decoding(T::encoding(value.deep_view()) + rest) == Ok::<(T::V, nat), BinverseError>(
            (value.deep_view(), T::encoding(value.deep_view()).len()),
        ),
{
    value.lemma_round_trip(rest);
}

/// A length prefix that fits its width is read back as written.
pub proof fn size_round_trip(size_bytes: SizeBytes, n: nat, rest: Seq<u8>)
    requires
        n <= size_bytes.max_spec(),
        n <= usize::MAX,
    ensures
        size_decoding(size_bytes, size_encoding(size_bytes, n) + rest) == Ok::<
            (nat, nat),
            BinverseError,
        >((n, size_encoding(size_bytes, n).len())),
{
    lemma_pow256_values();
    match size_bytes {
        SizeBytes::One => lemma_le_round_trip(n, 1, rest),
        SizeBytes::Two => lemma_le_round_trip(n, 2, rest),
        SizeBytes::Four => lemma_le_round_trip(n, 4, rest),
        SizeBytes::Eight => lemma_le_round_trip(n, 8, rest),
        SizeBytes::Var => lemma_var_size_round_trip(n, rest),
    }
}

/// A container written under a length prefix that fits its width reads back
/// under the same width: the prefix gives its element count, the elements
/// give its model, and exactly the written bytes are consumed.
pub proof fn sized_round_trip<T: SizedRoundTrip>(value: &T, size_bytes: SizeBytes, rest: Seq<u8>)
    requires
        T::fits(value.deep_view()),
        T::count(value.deep_view()) <= size_bytes.max_spec(),
    ensures
        ({
            let n = T::count(value.deep_view());
            let prefix = size_encoding(size_bytes, n);
            let elements = T::elements_encoding(value.deep_view(), n);
            &&& size_decoding(size_bytes, prefix + elements + rest) == Ok::<
                (nat, nat),
                BinverseError,
            >((n, prefix.len()))
            &&& T::elements_decoding(elements + rest, n) == Ok::<(T::V, nat), BinverseError>(
                (value.deep_view(), elements.len()),
            )
        }),
{
    let n = T::count(value.deep_view());
    let prefix = size_encoding(size_bytes, n);
    let elements = T::elements_encoding(value.deep_view(), n);
    value.lemma_elements_round_trip(rest);
    size_round_trip(size_bytes, n, elements + rest);
    assert(prefix + elements + rest =~= prefix + (elements + rest));
}

} // verus!
