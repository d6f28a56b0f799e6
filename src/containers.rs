use vstd::prelude::*;
use vstd::utf8::{decode_utf8, encode_utf8, valid_utf8};

use crate::error::{eof, BinverseError, BinverseResult};
use crate::serialize::{
    size_decoding, size_encoding, Deserialize, RoundTrip, Serialize, SizeBytes, SizedDeserialize,
    SizedRoundTrip, SizedSerialize,
};
use crate::primitives::lemma_le_byte;
use crate::streams::{Deserializer, Serializer};
use crate::varint::varint_round_trip;

verus! {

/// Relies on `std::str::from_utf8`: it accepts exactly the valid UTF-8 byte
/// sequences, and the text it returns is the one those bytes encode.
#[verifier::external_body]
fn str_from_utf8(b: &[u8]) -> (r: Option<&str>)
    ensures
        r is Some <==> valid_utf8(b@),
        r matches Some(s) ==> s@ == decode_utf8(b@),
{
    std::str::from_utf8(b).ok()
}

/// A varint length prefix is read back as written.
pub proof fn lemma_var_size_round_trip(n: nat, rest: Seq<u8>)
    requires
        n <= usize::MAX,
    ensures
        size_decoding(SizeBytes::Var, size_encoding(SizeBytes::Var, n) + rest) == Ok::<
            (nat, nat),
            BinverseError,
        >((n, size_encoding(SizeBytes::Var, n).len())),
{
    varint_round_trip(n as u64, rest);
}

/// Reading `n` bytes of UTF-8 text.
pub open spec fn utf8_decoding(data: Seq<u8>, n: nat) -> BinverseResult<(Seq<char>, nat)> {
    if data.len() < n {
        Err(eof())
    } else if valid_utf8(data.subrange(0, n as int)) {
        Ok((decode_utf8(data.subrange(0, n as int)), n))
    } else {
        Err(BinverseError::InvalidUTF8)
    }
}

/// Text read from bytes that are not valid UTF-8 is refused, never repaired.
pub proof fn utf8_rejection(data: Seq<u8>, n: nat)
    requires
        n <= data.len(),
        !valid_utf8(data.subrange(0, n as int)),
    ensures
        <String as SizedDeserialize>::elements_decoding(data, n) == Err::<(Seq<char>, nat), BinverseError>(
            BinverseError::InvalidUTF8,
        ),
{
}

/// Appends the first `size` bytes of the UTF-8 encoding of `text`.
fn write_utf8(s: &mut Serializer, text: &str, size: usize)
    requires
        size <= encode_utf8(text@).len(),
    ensures
        encode_utf8(text@).len() <= usize::MAX,
        final(s).rev() == old(s).rev(),
        final(s).bytes() == old(s).bytes() + encode_utf8(text@).subrange(0, size as int),
{
    let bytes = text.as_bytes();
    assert(bytes@.len() == bytes.len());
    let (head, _) = bytes.split_at(size);
    let _ = s.write(head);
}

/// Reads `size` bytes of UTF-8 text.
fn read_utf8(d: &mut Deserializer, size: usize) -> (r: BinverseResult<String>)
    ensures
        final(d).rev() == old(d).rev(),
        match utf8_decoding(old(d).rest(), size as nat) {
            Ok((v, n)) => r matches Ok(x) && x@ == v && n <= old(d).rest().len()
                && final(d).rest() == old(d).rest().subrange(n as int, old(d).rest().len() as int),
            Err(e) => r == Err::<String, BinverseError>(e),
        },
{
    let bytes = match d.take(size) {
        Ok(b) => b,
        Err(e) => {
            return Err(e);
        },
    };
    match str_from_utf8(bytes) {
        Some(text) => Ok(text.to_owned()),
        None => Err(BinverseError::InvalidUTF8),
    }
}

impl Serialize for String {
    open spec fn encoding(v: Seq<char>) -> Seq<u8> {
        size_encoding(SizeBytes::Var, encode_utf8(v).len()) + encode_utf8(v)
    }

    open spec fn fits(v: Seq<char>) -> bool {
        encode_utf8(v).len() <= usize::MAX
    }

    fn serialize(&self, s: &mut Serializer) -> (r: BinverseResult<()>) {
        let size = self.as_str().as_bytes().len();
        let _ = s.write_size(SizeBytes::Var, size);
        write_utf8(s, self.as_str(), size);
        assert(encode_utf8(self@).subrange(0, size as int) =~= encode_utf8(self@));
        Ok(())
    }
}

impl SizedSerialize for String {
    open spec fn count(v: Seq<char>) -> nat {
        encode_utf8(v).len()
    }

    open spec fn elements_encoding(v: Seq<char>, n: nat) -> Seq<u8> {
        encode_utf8(v).subrange(0, n as int)
    }

    fn serialize_sized(&self, s: &mut Serializer, size: usize) -> (r: BinverseResult<()>) {
        write_utf8(s, self.as_str(), size);
        Ok(())
    }

    fn size(&self) -> (r: usize) {
        self.as_str().as_bytes().len()
    }
}

impl<'a> Serialize for &'a str {
    open spec fn encoding(v: Seq<char>) -> Seq<u8> {
        size_encoding(SizeBytes::Var, encode_utf8(v).len()) + encode_utf8(v)
    }

    open spec fn fits(v: Seq<char>) -> bool {
        encode_utf8(v).len() <= usize::MAX
    }

    fn serialize(&self, s: &mut Serializer) -> (r: BinverseResult<()>) {
        let size = self.as_bytes().len();
        let _ = s.write_size(SizeBytes::Var, size);
        write_utf8(s, self, size);
        assert(encode_utf8(self@).subrange(0, size as int) =~= encode_utf8(self@));
        Ok(())
    }
}

impl<'a> SizedSerialize for &'a str {
    open spec fn count(v: Seq<char>) -> nat {
        encode_utf8(v).len()
    }

    open spec fn elements_encoding(v: Seq<char>, n: nat) -> Seq<u8> {
        encode_utf8(v).subrange(0, n as int)
    }

    fn serialize_sized(&self, s: &mut Serializer, size: usize) -> (r: BinverseResult<()>) {
        write_utf8(s, self, size);
        Ok(())
    }

    fn size(&self) -> (r: usize) {
        self.as_bytes().len()
    }
}

impl Deserialize for String {
    open spec fn decoding(data: Seq<u8>) -> BinverseResult<(Seq<char>, nat)> {
        match size_decoding(SizeBytes::Var, data) {
            Ok((n, k)) => match utf8_decoding(data.subrange(k as int, data.len() as int), n) {
                Ok((v, j)) => Ok((v, k + j)),
                Err(e) => Err(e),
            },
            Err(e) => Err(e),
        }
    }

    fn deserialize(d: &mut Deserializer) -> (r: BinverseResult<String>) {
        let ghost rest = d.rest();
        let size = match d.read_size(SizeBytes::Var) {
            Ok(n) => n,
            Err(e) => {
                return Err(e);
            },
        };
        let ghost mid = d.rest();
        let r = read_utf8(d, size);
        proof {
            if let Ok((n, k)) = size_decoding(SizeBytes::Var, rest) {
                if let Ok((v, j)) = utf8_decoding(mid, n) {
                    assert(d.rest() =~= rest.subrange((k + j) as int, rest.len() as int));
                }
            }
        }
        r
    }
}

impl SizedDeserialize for String {
    open spec fn elements_decoding(data: Seq<u8>, n: nat) -> BinverseResult<(Seq<char>, nat)> {
        utf8_decoding(data, n)
    }

    fn deserialize_sized(d: &mut Deserializer, size: usize) -> (r: BinverseResult<String>) {
        read_utf8(d, size)
    }
}

impl SizedRoundTrip for String {
    proof fn lemma_elements_round_trip(&self, rest: Seq<u8>) {
        let b = encode_utf8(self@);
        vstd::utf8::encode_utf8_valid_utf8(self@);
        vstd::utf8::encode_utf8_decode_utf8(self@);
        assert(b.subrange(0, b.len() as int) =~= b);
        assert((b + rest).subrange(0, b.len() as int) =~= b);
    }
}

impl RoundTrip for String {
    proof fn lemma_round_trip(&self, rest: Seq<u8>) {
        let b = encode_utf8(self@);
        let p = size_encoding(SizeBytes::Var, b.len());
        self.lemma_elements_round_trip(rest);
        lemma_var_size_round_trip(b.len(), b + rest);
        assert(b.subrange(0, b.len() as int) =~= b);
        assert(p + b + rest =~= p + (b + rest));
        assert((p + (b + rest)).subrange(p.len() as int, (p + (b + rest)).len() as int) =~= b
            + rest);
    }
}

/// The models of the values `s`.
pub open spec fn models<T: DeepView>(s: Seq<T>) -> Seq<T::V> {
    Seq::new(s.len(), |i: int| s[i].deep_view())
}

/// The bytes of the values with models `s`, one after the other.
pub open spec fn seq_encoding<T: Serialize>(s: Seq<T::V>) -> Seq<u8>
    decreases s.len(),
{
    if s.len() == 0 {
        seq![]
    } else {
        seq_encoding::<T>(s.drop_last()) + T::encoding(s.last())
    }
}

/// Reading `n` values of type `T` one after the other from the start of
/// `data`: their models and the bytes they take, or the first error.
pub open spec fn seq_decoding<T: Deserialize>(data: Seq<u8>, n: nat) -> BinverseResult<
    (Seq<T::V>, nat),
>
    decreases n,
{
    if n == 0 {
        Ok((seq![], 0))
    } else {
        match seq_decoding::<T>(data, (n - 1) as nat) {
            Ok((s, m)) => match T::decoding(data.subrange(m as int, data.len() as int)) {
                Ok((x, j)) => Ok((s.push(x), m + j)),
                Err(e) => Err(e),
            },
            Err(e) => Err(e),
        }
    }
}

/// Every value with a model in `s` fits.
pub open spec fn all_fit<T: Serialize>(s: Seq<T::V>) -> bool {
    forall|i: int| 0 <= i < s.len() ==> T::fits(#[trigger] s[i])
}

/// Once reading the values fails, reading more of them fails the same way.
proof fn lemma_seq_decoding_err<T: Deserialize>(data: Seq<u8>, i: nat, n: nat)
    requires
        i <= n,
        seq_decoding::<T>(data, i) is Err,
    ensures
        seq_decoding::<T>(data, n) == seq_decoding::<T>(data, i),
    decreases n,
{
    if n > i {
        lemma_seq_decoding_err::<T>(data, i, (n - 1) as nat);
    }
}

/// Reading back the values `items`, whatever follows them.
pub proof fn lemma_seq_round_trip<T: RoundTrip>(items: Seq<T>, rest: Seq<u8>)
    requires
        all_fit::<T>(models(items)),
    ensures
        seq_decoding::<T>(seq_encoding::<T>(models(items)) + rest, items.len()) == Ok::<
            (Seq<T::V>, nat),
            BinverseError,
        >((models(items), seq_encoding::<T>(models(items)).len())),
    decreases items.len(),
{
    if items.len() > 0 {
        let front = items.drop_last();
        let x = items.last();
        let ex = T::encoding(x.deep_view());
        assert(models(items).drop_last() =~= models(front));
        assert(models(items).last() == x.deep_view());
        assert(all_fit::<T>(models(front))) by {
            assert forall|i: int| 0 <= i < models(front).len() implies T::fits(
                #[trigger] models(front)[i],
            ) by {
                assert(models(front)[i] == models(items)[i]);
            }
        }
        assert(T::fits(models(items)[items.len() - 1]));
        lemma_seq_round_trip(front, ex + rest);
        x.lemma_round_trip(rest);
        let ef = seq_encoding::<T>(models(front));
        let data = seq_encoding::<T>(models(items)) + rest;
        assert(data =~= ef + (ex + rest));
        assert(data.subrange(ef.len() as int, data.len() as int) =~= ex + rest);
        assert(models(front).push(x.deep_view()) =~= models(items));
        assert(seq_encoding::<T>(models(items)) == ef + ex);
    } else {
        assert(models(items) =~= Seq::<T::V>::empty());
    }
}

/// Reading `n` values gives `n` models.
proof fn lemma_seq_decoding_len<T: Deserialize>(data: Seq<u8>, n: nat)
    ensures
        seq_decoding::<T>(data, n) matches Ok((s, m)) ==> s.len() == n,
    decreases n,
{
    if n > 0 {
        lemma_seq_decoding_len::<T>(data, (n - 1) as nat);
    }
}

/// Appends the encodings of `items[..size]`.
fn write_items<T: Serialize>(s: &mut Serializer, items: &[T], size: usize)
    requires
        size <= items@.len(),
    ensures
        final(s).rev() == old(s).rev(),
        final(s).bytes() == old(s).bytes() + seq_encoding::<T>(
            models(items@).subrange(0, size as int),
        ),
        all_fit::<T>(models(items@).subrange(0, size as int)),
{
    let mut i: usize = 0;
    while i < size
        invariant
            i <= size <= items@.len(),
            s.rev() == old(s).rev(),
            s.bytes() == old(s).bytes() + seq_encoding::<T>(models(items@).subrange(0, i as int)),
            all_fit::<T>(models(items@).subrange(0, i as int)),
        decreases size - i,
    {
        let ghost before = s.bytes();
        let _ = items[i].serialize(s);
        proof {
            let m = models(items@);
            assert(m.subrange(0, i + 1).drop_last() =~= m.subrange(0, i as int));
            assert(m.subrange(0, i + 1).last() == items@[i as int].deep_view());
            assert(s.bytes() =~= old(s).bytes() + seq_encoding::<T>(m.subrange(0, i + 1)));
            assert forall|j: int| 0 <= j < i + 1 implies T::fits(
                #[trigger] m.subrange(0, i + 1)[j],
            ) by {
                if j < i {
                    assert(m.subrange(0, i + 1)[j] == m.subrange(0, i as int)[j]);
                }
            }
        }
        i = i + 1;
    }
}

/// Reads `size` values of type `T`.
fn read_items<T: Deserialize>(d: &mut Deserializer, size: usize) -> (r: BinverseResult<Vec<T>>)
    ensures
        final(d).rev() == old(d).rev(),
        match seq_decoding::<T>(old(d).rest(), size as nat) {
            Ok((v, n)) => r matches Ok(x) && x.deep_view() == v && n <= old(d).rest().len()
                && final(d).rest() == old(d).rest().subrange(n as int, old(d).rest().len() as int),
            Err(e) => r == Err::<Vec<T>, BinverseError>(e),
        },
{
    let ghost rest = d.rest();
    let mut out: Vec<T> = Vec::new();
    let ghost mut used: nat = 0;
    let mut i: usize = 0;
    assert(out.deep_view() =~= Seq::<T::V>::empty());
    assert(d.rest() =~= rest.subrange(0, rest.len() as int));
    while i < size
        invariant
            i <= size,
            d.rev() == old(d).rev(),
            rest == old(d).rest(),
            seq_decoding::<T>(rest, i as nat) == Ok::<(Seq<T::V>, nat), BinverseError>(
                (out.deep_view(), used),
            ),
            used <= rest.len(),
            d.rest() == rest.subrange(used as int, rest.len() as int),
        decreases size - i,
    {
        let ghost before = out.deep_view();
        let ghost step = T::decoding(d.rest());
        match T::deserialize(d) {
            Ok(x) => {
                out.push(x);
            },
            Err(e) => {
                proof {
                    lemma_seq_decoding_err::<T>(rest, (i + 1) as nat, size as nat);
                }
                return Err(e);
            },
        }
        proof {
            let j = step->Ok_0.1;
            assert(out.deep_view() =~= before.push(step->Ok_0.0));
            assert(d.rest() =~= rest.subrange((used + j) as int, rest.len() as int));
            used = used + j;
        }
        i = i + 1;
    }
    Ok(out)
}

impl<T: Serialize> Serialize for Vec<T> {
    open spec fn encoding(v: Seq<T::V>) -> Seq<u8> {
        size_encoding(SizeBytes::Var, v.len()) + seq_encoding::<T>(v)
    }

    open spec fn fits(v: Seq<T::V>) -> bool {
        v.len() <= usize::MAX && all_fit::<T>(v)
    }

    fn serialize(&self, s: &mut Serializer) -> (r: BinverseResult<()>) {
        let size = self.len();
        let _ = s.write_size(SizeBytes::Var, size);
        write_items(s, self.as_slice(), size);
        assert(models(self@).subrange(0, size as int) =~= self.deep_view());
        Ok(())
    }
}

impl<T: Serialize> SizedSerialize for Vec<T> {
    open spec fn count(v: Seq<T::V>) -> nat {
        v.len()
    }

    open spec fn elements_encoding(v: Seq<T::V>, n: nat) -> Seq<u8> {
        seq_encoding::<T>(v.subrange(0, n as int))
    }

    fn serialize_sized(&self, s: &mut Serializer, size: usize) -> (r: BinverseResult<()>) {
        write_items(s, self.as_slice(), size);
        assert(models(self@) =~= self.deep_view());
        assert(models(self@).subrange(0, self@.len() as int) =~= self.deep_view());
        Ok(())
    }

    fn size(&self) -> (r: usize) {
        self.len()
    }
}

impl<'a, T: Serialize> Serialize for &'a [T] {
    open spec fn encoding(v: Seq<T::V>) -> Seq<u8> {
        size_encoding(SizeBytes::Var, v.len()) + seq_encoding::<T>(v)
    }

    open spec fn fits(v: Seq<T::V>) -> bool {
        v.len() <= usize::MAX && all_fit::<T>(v)
    }

    fn serialize(&self, s: &mut Serializer) -> (r: BinverseResult<()>) {
        let size = self.len();
        let _ = s.write_size(SizeBytes::Var, size);
        write_items(s, self, size);
        assert(models(self@).subrange(0, size as int) =~= self.deep_view());
        Ok(())
    }
}

impl<'a, T: Serialize> SizedSerialize for &'a [T] {
    open spec fn count(v: Seq<T::V>) -> nat {
        v.len()
    }

    open spec fn elements_encoding(v: Seq<T::V>, n: nat) -> Seq<u8> {
        seq_encoding::<T>(v.subrange(0, n as int))
    }

    fn serialize_sized(&self, s: &mut Serializer, size: usize) -> (r: BinverseResult<()>) {
        write_items(s, self, size);
        assert(models(self@) =~= self.deep_view());
        assert(models(self@).subrange(0, self@.len() as int) =~= self.deep_view());
        Ok(())
    }

    fn size(&self) -> (r: usize) {
        self.len()
    }
}

impl<T: Deserialize> Deserialize for Vec<T> {
    open spec fn decoding(data: Seq<u8>) -> BinverseResult<(Seq<T::V>, nat)> {
        match size_decoding(SizeBytes::Var, data) {
            Ok((n, k)) => match seq_decoding::<T>(data.subrange(k as int, data.len() as int), n) {
                Ok((v, j)) => Ok((v, k + j)),
                Err(e) => Err(e),
            },
            Err(e) => Err(e),
        }
    }

    fn deserialize(d: &mut Deserializer) -> (r: BinverseResult<Vec<T>>) {
        let ghost rest = d.rest();
        let size = match d.read_size(SizeBytes::Var) {
            Ok(n) => n,
            Err(e) => {
                return Err(e);
            },
        };
        let ghost mid = d.rest();
        let r = read_items(d, size);
        proof {
            if let Ok((n, k)) = size_decoding(SizeBytes::Var, rest) {
                if let Ok((v, j)) = seq_decoding::<T>(mid, n) {
                    assert(d.rest() =~= rest.subrange((k + j) as int, rest.len() as int));
                }
            }
        }
        r
    }
}

impl<T: Deserialize> SizedDeserialize for Vec<T> {
    open spec fn elements_decoding(data: Seq<u8>, n: nat) -> BinverseResult<(Seq<T::V>, nat)> {
        seq_decoding::<T>(data, n)
    }

    fn deserialize_sized(d: &mut Deserializer, size: usize) -> (r: BinverseResult<Vec<T>>) {
        read_items(d, size)
    }
}

impl<T: RoundTrip> SizedRoundTrip for Vec<T> {
    proof fn lemma_elements_round_trip(&self, rest: Seq<u8>) {
        assert(models(self@) =~= self.deep_view());
        assert(self.deep_view().subrange(0, self@.len() as int) =~= self.deep_view());
        lemma_seq_round_trip(self@, rest);
    }
}

impl<T: RoundTrip> RoundTrip for Vec<T> {
    proof fn lemma_round_trip(&self, rest: Seq<u8>) {
        let v = self.deep_view();
        let e = seq_encoding::<T>(v);
        let p = size_encoding(SizeBytes::Var, v.len());
        assert(models(self@) =~= v);
        lemma_seq_round_trip(self@, rest);
        lemma_var_size_round_trip(v.len(), e + rest);
        assert(p + e + rest =~= p + (e + rest));
        assert((p + (e + rest)).subrange(p.len() as int, (p + (e + rest)).len() as int) =~= e
            + rest);
    }
}

impl<T: Serialize> Serialize for Option<T> {
    open spec fn encoding(v: Option<T::V>) -> Seq<u8> {
        match v {
            Some(x) => seq![1u8] + T::encoding(x),
            None => seq![0u8],
        }
    }

    open spec fn fits(v: Option<T::V>) -> bool {
        match v {
            Some(x) => T::fits(x),
            None => true,
        }
    }

    fn serialize(&self, s: &mut Serializer) -> (r: BinverseResult<()>) {
        proof {
            lemma_le_byte(0);
            lemma_le_byte(1);
        }
        match self {
            Some(x) => {
                let _ = 1u8.serialize(s);
                x.serialize(s)
            },
            None => 0u8.serialize(s),
        }
    }
}

impl<T: Deserialize> Deserialize for Option<T> {
    open spec fn decoding(data: Seq<u8>) -> BinverseResult<(Option<T::V>, nat)> {
        if data.len() < 1 {
            Err(eof())
        } else if data[0] == 0 {
            Ok((None, 1))
        } else if data[0] == 1 {
            match T::decoding(data.subrange(1, data.len() as int)) {
                Ok((x, j)) => Ok((Some(x), 1 + j)),
                Err(e) => Err(e),
            }
        } else {
            Err(BinverseError::InvalidData)
        }
    }

    fn deserialize(d: &mut Deserializer) -> (r: BinverseResult<Option<T>>) {
        let ghost rest = d.rest();
        let tag = match d.take(1) {
            Ok(b) => b[0],
            Err(e) => {
                return Err(e);
            },
        };
        if tag == 0 {
            Ok(None)
        } else if tag == 1 {
            let ghost mid = d.rest();
            match T::deserialize(d) {
                Ok(x) => {
                    proof {
                        let j = T::decoding(mid)->Ok_0.1;
                        assert(d.rest() =~= rest.subrange((1 + j) as int, rest.len() as int));
                    }
                    Ok(Some(x))
                },
                Err(e) => Err(e),
            }
        } else {
            Err(BinverseError::InvalidData)
        }
    }
}

impl<T: RoundTrip> RoundTrip for Option<T> {
    proof fn lemma_round_trip(&self, rest: Seq<u8>) {
        if let Some(x) = self {
            x.lemma_round_trip(rest);
            let data = seq![1u8] + T::encoding(x.deep_view()) + rest;
            assert(data.subrange(1, data.len() as int) =~= T::encoding(x.deep_view()) + rest);
        }
    }
}

/// Relies on `TryFrom<Vec<T>>` for `[T; N]`: a vector of exactly `N` elements
/// becomes the array of those elements, in order.
#[verifier::external_body]
fn into_array<T, const N: usize>(v: Vec<T>) -> (r: [T; N])
    requires
        v@.len() == N,
    ensures
        r@ == v@,
{
    <[T; N]>::try_from(v).ok().unwrap()
}

impl<T: Serialize, const N: usize> Serialize for [T; N] {
    open spec fn encoding(v: Seq<T::V>) -> Seq<u8> {
        seq_encoding::<T>(v)
    }

    open spec fn fits(v: Seq<T::V>) -> bool {
        all_fit::<T>(v)
    }

    fn serialize(&self, s: &mut Serializer) -> (r: BinverseResult<()>) {
        let items = self.as_slice();
        write_items(s, items, N);
        assert(models(items@).subrange(0, N as int) =~= self.deep_view());
        Ok(())
    }
}

impl<T: Deserialize, const N: usize> Deserialize for [T; N] {
    open spec fn decoding(data: Seq<u8>) -> BinverseResult<(Seq<T::V>, nat)> {
        seq_decoding::<T>(data, N as nat)
    }

    /// Reads the elements into a growable buffer and makes the array only
    /// once all of them are read: on an error the elements read so far are
    /// dropped with the buffer.
    fn deserialize(d: &mut Deserializer) -> (r: BinverseResult<[T; N]>) {
        proof {
            lemma_seq_decoding_len::<T>(d.rest(), N as nat);
        }
        match read_items(d, N) {
            Ok(v) => {
                assert(v.deep_view().len() == v@.len());
                let a: [T; N] = into_array(v);
                assert(a.deep_view() =~= v.deep_view());
                Ok(a)
            },
            Err(e) => Err(e),
        }
    }
}

impl<T: RoundTrip, const N: usize> RoundTrip for [T; N] {
    proof fn lemma_round_trip(&self, rest: Seq<u8>) {
        assert(models(self@) =~= self.deep_view());
        lemma_seq_round_trip(self@, rest);
    }
}

impl<A: Serialize, B: Serialize> Serialize for (A, B) {
    open spec fn encoding(v: (A::V, B::V)) -> Seq<u8> {
        A::encoding(v.0) + B::encoding(v.1)
    }

    open spec fn fits(v: (A::V, B::V)) -> bool {
        A::fits(v.0) && B::fits(v.1)
    }

    fn serialize(&self, s: &mut Serializer) -> (r: BinverseResult<()>) {
        let _ = self.0.serialize(s);
        let _ = self.1.serialize(s);
        assert(s.bytes() =~= old(s).bytes() + Self::encoding(self.deep_view()));
        Ok(())
    }
}

impl<A: Deserialize, B: Deserialize> Deserialize for (A, B) {
    open spec fn decoding(data: Seq<u8>) -> BinverseResult<((A::V, B::V), nat)> {
        match A::decoding(data) {
            Ok((a, i)) => match B::decoding(data.subrange(i as int, data.len() as int)) {
                Ok((b, j)) => Ok(((a, b), i + j)),
                Err(e) => Err(e),
            },
            Err(e) => Err(e),
        }
    }

    fn deserialize(d: &mut Deserializer) -> (r: BinverseResult<(A, B)>) {
        let ghost rest = d.rest();
        let a = match A::deserialize(d) {
            Ok(a) => a,
            Err(e) => {
                return Err(e);
            },
        };
        let ghost mid = d.rest();
        let b = match B::deserialize(d) {
            Ok(b) => b,
            Err(e) => {
                return Err(e);
            },
        };
        proof {
            let i = A::decoding(rest)->Ok_0.1;
            let j = B::decoding(mid)->Ok_0.1;
            assert(d.rest() =~= rest.subrange((i + j) as int, rest.len() as int));
        }
        Ok((a, b))
    }
}

impl<A: RoundTrip, B: RoundTrip> RoundTrip for (A, B) {
    proof fn lemma_round_trip(&self, rest: Seq<u8>) {
        let ea = A::encoding(self.0.deep_view());
        let eb = B::encoding(self.1.deep_view());
        self.0.lemma_round_trip(eb + rest);
        self.1.lemma_round_trip(rest);
        let data = ea + eb + rest;
        assert(data =~= ea + (eb + rest));
        assert(data.subrange(ea.len() as int, data.len() as int) =~= eb + rest);
    }
}

impl<A: Serialize, B: Serialize, C: Serialize> Serialize for (A, B, C) {
    open spec fn encoding(v: (A::V, B::V, C::V)) -> Seq<u8> {
        A::encoding(v.0) + B::encoding(v.1) + C::encoding(v.2)
    }

    open spec fn fits(v: (A::V, B::V, C::V)) -> bool {
        A::fits(v.0) && B::fits(v.1) && C::fits(v.2)
    }

    fn serialize(&self, s: &mut Serializer) -> (r: BinverseResult<()>) {
        let _ = self.0.serialize(s);
        let _ = self.1.serialize(s);
        let _ = self.2.serialize(s);
        assert(s.bytes() =~= old(s).bytes() + Self::encoding(self.deep_view()));
        Ok(())
    }
}

impl<A: Deserialize, B: Deserialize, C: Deserialize> Deserialize for (A, B, C) {
    open spec fn decoding(data: Seq<u8>) -> BinverseResult<((A::V, B::V, C::V), nat)> {
        match <(A, B)>::decoding(data) {
            Ok((ab, i)) => match C::decoding(data.subrange(i as int, data.len() as int)) {
                Ok((c, j)) => Ok(((ab.0, ab.1, c), i + j)),
                Err(e) => Err(e),
            },
            Err(e) => Err(e),
        }
    }

    fn deserialize(d: &mut Deserializer) -> (r: BinverseResult<(A, B, C)>) {
        let ghost rest = d.rest();
        let (a, b) = match <(A, B)>::deserialize(d) {
            Ok(ab) => ab,
            Err(e) => {
                return Err(e);
            },
        };
        let ghost mid = d.rest();
        let c = match C::deserialize(d) {
            Ok(c) => c,
            Err(e) => {
                return Err(e);
            },
        };
        proof {
            let i = <(A, B)>::decoding(rest)->Ok_0.1;
            let j = C::decoding(mid)->Ok_0.1;
            assert(d.rest() =~= rest.subrange((i + j) as int, rest.len() as int));
        }
        Ok((a, b, c))
    }
}

impl<A: RoundTrip, B: RoundTrip, C: RoundTrip> RoundTrip for (A, B, C) {
    proof fn lemma_round_trip(&self, rest: Seq<u8>) {
        let ea = A::encoding(self.0.deep_view());
        let eb = B::encoding(self.1.deep_view());
        let ec = C::encoding(self.2.deep_view());
        self.0.lemma_round_trip(eb + ec + rest);
        self.1.lemma_round_trip(ec + rest);
        self.2.lemma_round_trip(rest);
        let data = ea + eb + ec + rest;
        assert(data =~= ea + (eb + ec + rest));
        assert(data.subrange(ea.len() as int, data.len() as int) =~= eb + (ec + rest));
        assert(data =~= ea + eb + (ec + rest));
        assert(data.subrange((ea + eb).len() as int, data.len() as int) =~= ec + rest);
    }
}

} // verus!
