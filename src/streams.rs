use vstd::prelude::*;

use crate::error::{eof, BinverseError, BinverseResult, IoErrorKind};
use crate::primitives::{le_bytes, le_value, lemma_le_value_bound, lemma_pow256_values, pow256};
use crate::serialize::{
    size_decoding, size_encoding, Deserialize, Serialize, SizeBytes, SizedDeserialize,
    SizedSerialize,
};
use crate::varint;

verus! {

/// Writes serialized data into an owned byte buffer.
pub struct Serializer {
    w: Vec<u8>,
    revision: u32,
}

impl Serializer {
    /// Everything written so far, the revision header included.
    pub closed spec fn bytes(&self) -> Seq<u8> {
        self.w@
    }

    /// The revision that decides which fields are written.
    pub closed spec fn rev(&self) -> u32 {
        self.revision
    }

    /// Creates a serializer that appends to `w`, and writes `revision` as a
    /// four-byte little-endian header so that readers of later revisions can
    /// tell what the data holds.
    pub fn new(w: Vec<u8>, revision: u32) -> (r: BinverseResult<Self>)
        ensures
            r matches Ok(s) && s.bytes() == w@ + le_bytes(revision as nat, 4) && s.rev()
                == revision,
    {
        let mut s = Serializer { w, revision };
        s.write_le(revision as u128, 4);
        Ok(s)
    }

    /// Creates a serializer that appends to `w` without writing a header; the
    /// reader has to know `revision` from elsewhere.
    pub fn new_no_revision(w: Vec<u8>, revision: u32) -> (s: Self)
        ensures
            s.bytes() == w@,
            s.rev() == revision,
    {
        Serializer { w, revision }
    }

    /// Appends `x` as `n` little-endian bytes.
    pub(crate) fn write_le(&mut self, x: u128, n: usize)
        ensures
            final(self).bytes() == old(self).bytes() + le_bytes(x as nat, n as nat),
            final(self).rev() == old(self).rev(),
    {
        let ghost start = self.w@;
        let ghost x0 = x;
        let mut x = x;
        let mut i: usize = 0;
        while i < n
            invariant
                i <= n,
                self.w@ + le_bytes(x as nat, (n - i) as nat) == start + le_bytes(
                    x0 as nat,
                    n as nat,
                ),
                self.revision == old(self).revision,
            decreases n - i,
        {
            let ghost before = self.w@;
            self.w.push((x % 256) as u8);
            assert(self.w@ + le_bytes((x / 256) as nat, (n - i - 1) as nat) =~= before
                + le_bytes(x as nat, (n - i) as nat));
            x = x / 256;
            i = i + 1;
        }
        assert(self.w@ =~= start + le_bytes(x0 as nat, n as nat));
    }

    /// Appends the varint encoding of `x`.
    pub(crate) fn write_varint(&mut self, x: u64)
        ensures
            final(self).bytes() == old(self).bytes() + varint::varint_encoding(x),
            final(self).rev() == old(self).rev(),
    {
        varint::write(x, &mut self.w);
    }

    /// Appends raw bytes. The reader has to know how many to read.
    pub fn write(&mut self, buf: &[u8]) -> (r: BinverseResult<()>)
        ensures
            r is Ok,
            final(self).bytes() == old(self).bytes() + buf@,
            final(self).rev() == old(self).rev(),
    {
        let mut i: usize = 0;
        while i < buf.len()
            invariant
                i <= buf@.len(),
                self.w@ == old(self).w@ + buf@.subrange(0, i as int),
                self.revision == old(self).revision,
            decreases buf@.len() - i,
        {
            self.w.push(buf[i]);
            i = i + 1;
            assert(buf@.subrange(0, i as int) == buf@.subrange(0, i - 1) + seq![buf@[i - 1]]);
        }
        assert(buf@.subrange(0, buf@.len() as int) == buf@);
        Ok(())
    }

    /// Writes the length prefix `size` under the width `sb`, refusing a
    /// length that the width cannot carry.
    pub fn write_size(&mut self, sb: SizeBytes, size: usize) -> (r: BinverseResult<()>)
        ensures
            final(self).rev() == old(self).rev(),
            size > sb.max_spec() ==> r == Err::<(), BinverseError>(
                BinverseError::SizeExceeded { limit: sb, found: size },
            ) && final(self).bytes() == old(self).bytes(),
            size <= sb.max_spec() ==> r is Ok && final(self).bytes() == old(self).bytes()
                + size_encoding(sb, size as nat),
    {
        if size as u64 > sb.maximum() {
            return Err(BinverseError::SizeExceeded { limit: sb, found: size });
        }
        match sb {
            SizeBytes::One => self.write_le(size as u128, 1),
            SizeBytes::Two => self.write_le(size as u128, 2),
            SizeBytes::Four => self.write_le(size as u128, 4),
            SizeBytes::Eight => self.write_le(size as u128, 8),
            SizeBytes::Var => self.write_varint(size as u64),
        }
        Ok(())
    }

    /// Writes a container's length under the width `sb`, then its elements.
    /// Fails, writing nothing, when the length does not fit the width.
    pub fn serialize_sized<T: SizedSerialize>(&mut self, size_bytes: SizeBytes, t: &T) -> (r:
        BinverseResult<()>)
        ensures
            final(self).rev() == old(self).rev(),
            T::count(t.deep_view()) > size_bytes.max_spec() ==> r == Err::<(), BinverseError>(
                BinverseError::SizeExceeded {
                    limit: size_bytes,
                    found: T::count(t.deep_view()) as usize,
                },
            ) && final(self).bytes() == old(self).bytes(),
            T::count(t.deep_view()) <= size_bytes.max_spec() ==> r is Ok && T::fits(t.deep_view())
                && final(self).bytes()
                == old(self).bytes() + size_encoding(size_bytes, T::count(t.deep_view()))
                + T::elements_encoding(t.deep_view(), T::count(t.deep_view())),
    {
        let size = t.size();
        match self.write_size(size_bytes, size) {
            Ok(()) => {},
            Err(e) => {
                return Err(e);
            },
        }
        t.serialize_sized(self, size)
    }

    /// The revision that decides which fields are written.
    pub fn revision(&self) -> (r: u32)
        ensures
            r == self.rev(),
    {
        self.revision
    }

    /// Returns the written bytes.
    pub fn finish(self) -> (r: Vec<u8>)
        ensures
            r@ == self.bytes(),
    {
        self.w
    }
}

/// Reads serialized data from a byte slice, front to back. The calls have
/// to mirror the ones that wrote the data.
pub struct Deserializer<'a> {
    r: &'a [u8],
    pos: usize,
    revision: u32,
}

impl<'a> Deserializer<'a> {
    #[verifier::type_invariant]
    spec fn inv(&self) -> bool {
        self.pos <= self.r@.len()
    }

    /// The bytes not read yet.
    pub closed spec fn rest(&self) -> Seq<u8> {
        self.r@.subrange(self.pos as int, self.r@.len() as int)
    }

    /// The revision of the data being read.
    pub closed spec fn rev(&self) -> u32 {
        self.revision
    }

    /// Creates a deserializer over `r` whose first four bytes hold the
    /// revision, little-endian.
    pub fn new(r: &'a [u8]) -> (res: BinverseResult<Self>)
        ensures
            r@.len() < 4 ==> res == Err::<Self, BinverseError>(eof()),
            r@.len() >= 4 ==> (res matches Ok(d) && d.rev() == le_value(r@.subrange(0, 4))
                && d.rest() == r@.subrange(4, r@.len() as int)),
    {
        let mut d = Deserializer { r, pos: 0, revision: 0 };
        proof {
            assert(d.rest() == r@);
        }
        match d.read_le(4) {
            Ok(v) => {
                proof {
                    lemma_le_value_bound(r@.subrange(0, 4));
                    lemma_pow256_values();
                }
                proof {
                    use_type_invariant(&d);
                }
                d.revision = v as u32;
                Ok(d)
            },
            Err(e) => Err(e),
        }
    }

    /// Creates a deserializer over `r`, which holds no revision header: the
    /// revision of the data is `revision`.
    pub fn new_no_revision(r: &'a [u8], revision: u32) -> (d: Self)
        ensures
            d.rest() == r@,
            d.rev() == revision,
    {
        let d = Deserializer { r, pos: 0, revision };
        assert(d.rest() =~= r@);
        d
    }

    /// Reads `n` bytes as a little-endian number.
    pub(crate) fn read_le(&mut self, n: usize) -> (res: BinverseResult<u128>)
        requires
            n <= 16,
        ensures
            final(self).rev() == old(self).rev(),
            old(self).rest().len() < n ==> res == Err::<u128, BinverseError>(eof())
                && final(self).rest() == old(self).rest(),
            old(self).rest().len() >= n ==> res == Ok::<u128, BinverseError>(
                le_value(old(self).rest().subrange(0, n as int)) as u128,
            ) && final(self).rest() == old(self).rest().subrange(
                n as int,
                old(self).rest().len() as int,
            ),
    {
        proof {
            use_type_invariant(&*self);
        }
        let r = self.r;
        let pos = self.pos;
        if r.len() - pos < n {
            return Err(BinverseError::IO(IoErrorKind::UnexpectedEof));
        }
        proof {
            lemma_pow256_values();
        }
        let mut acc: u128 = 0;
        let mut i: usize = n;
        while i > 0
            invariant
                i <= n <= 16,
                pos + n <= r@.len(),
                r@.len() == r.len(),
                acc == le_value(r@.subrange(pos + i, pos + n)),
                pow256(16) == 0x1_0000_0000_0000_0000_0000_0000_0000_0000,
            decreases i,
        {
            i = i - 1;
            proof {
                lemma_le_value_bound(r@.subrange(pos + i + 1, pos + n));
                crate::primitives::lemma_pow256_mono((n - i - 1) as nat, 15);
                let sub = r@.subrange(pos + i, pos + n);
                assert(sub.subrange(1, sub.len() as int) =~= r@.subrange(pos + i + 1, pos + n));
                lemma_pow256_values();
            }
            assert(acc * 256 + 255 <= u128::MAX) by (nonlinear_arith)
                requires
                    acc < pow256(15),
                    pow256(15) == 0x100_0000_0000_0000_0000_0000_0000_0000,
            ;
            acc = acc * 256 + r[pos + i] as u128;
        }
        proof {
            lemma_le_value_bound(r@.subrange(pos as int, pos + n));
            assert(r@.subrange(pos as int, pos + n) =~= self.rest().subrange(0, n as int));
        }
        self.pos = pos + n;
        assert(self.rest() =~= old(self).rest().subrange(n as int, old(self).rest().len() as int));
        Ok(acc)
    }

    /// Reads a varint.
    pub(crate) fn read_varint(&mut self) -> (res: BinverseResult<u64>)
        ensures
            final(self).rev() == old(self).rev(),
            match varint::varint_decoding(old(self).rest()) {
                Ok((v, n)) => res == Ok::<u64, BinverseError>(v) && n <= old(self).rest().len()
                    && final(self).rest() == old(self).rest().subrange(
                    n as int,
                    old(self).rest().len() as int,
                ),
                Err(e) => res == Err::<u64, BinverseError>(e),
            },
    {
        proof {
            use_type_invariant(&*self);
        }
        let (_, tail) = self.r.split_at(self.pos);
        assert(tail@ == self.rest());
        match varint::read(tail) {
            Ok((v, k)) => {
                proof {
                    varint::lemma_decoding_bounds(tail@);
                    assert(k <= tail@.len());
                    assert(tail@.len() + self.pos == self.r@.len());
                    assert(self.r@.len() == self.r.len());
                }
                self.pos = self.pos + k;
                assert(self.rest() =~= old(self).rest().subrange(
                    k as int,
                    old(self).rest().len() as int,
                ));
                Ok(v)
            },
            Err(e) => Err(e),
        }
    }

    /// Takes the next `n` bytes.
    pub(crate) fn take(&mut self, n: usize) -> (res: BinverseResult<&'a [u8]>)
        ensures
            final(self).rev() == old(self).rev(),
            old(self).rest().len() < n ==> res == Err::<&'a [u8], BinverseError>(eof())
                && final(self).rest() == old(self).rest(),
            old(self).rest().len() >= n ==> (res matches Ok(b) && b@ == old(
                self,
            ).rest().subrange(0, n as int) && final(self).rest() == old(self).rest().subrange(
                n as int,
                old(self).rest().len() as int,
            )),
    {
        proof {
            use_type_invariant(&*self);
        }
        let r = self.r;
        let pos = self.pos;
        if r.len() - pos < n {
            return Err(BinverseError::IO(IoErrorKind::UnexpectedEof));
        }
        let (_, tail) = r.split_at(pos);
        let (head, _) = tail.split_at(n);
        self.pos = pos + n;
        assert(head@ =~= old(self).rest().subrange(0, n as int));
        assert(self.rest() =~= old(self).rest().subrange(n as int, old(self).rest().len() as int));
        Ok(head)
    }

    /// Reads raw bytes into `buf`, filling it.
    pub fn read(&mut self, buf: &mut [u8]) -> (res: BinverseResult<()>)
        ensures
            final(self).rev() == old(self).rev(),
            old(self).rest().len() < old(buf)@.len() ==> res == Err::<(), BinverseError>(eof())
                && final(self).rest() == old(self).rest() && final(buf)@ == old(buf)@,
            old(self).rest().len() >= old(buf)@.len() ==> res is Ok && final(buf)@ == old(
                self,
            ).rest().subrange(0, old(buf)@.len() as int) && final(self).rest() == old(
                self,
            ).rest().subrange(old(buf)@.len() as int, old(self).rest().len() as int),
    {
        let src = match self.take(buf.len()) {
            Ok(b) => b,
            Err(e) => {
                return Err(e);
            },
        };
        let mut i: usize = 0;
        while i < buf.len()
            invariant
                src@.len() == buf@.len(),
                buf@.len() == old(buf)@.len(),
                i <= buf@.len(),
                forall|j: int| 0 <= j < i ==> buf@[j] == src@[j],
            decreases buf@.len() - i,
        {
            buf[i] = src[i];
            i = i + 1;
        }
        assert(buf@ =~= src@);
        Ok(())
    }

    /// Reads a length prefix written under the width `sb`.
    pub fn read_size(&mut self, sb: SizeBytes) -> (res: BinverseResult<usize>)
        ensures
            final(self).rev() == old(self).rev(),
            match size_decoding(sb, old(self).rest()) {
                Ok((n, k)) => res == Ok::<usize, BinverseError>(n as usize) && k <= old(self).rest().len()
                    && final(self).rest()
                    == old(self).rest().subrange(k as int, old(self).rest().len() as int),
                Err(e) => res == Err::<usize, BinverseError>(e),
            },
    {
        proof {
            lemma_pow256_values();
        }
        let read: BinverseResult<u128> = match sb {
            SizeBytes::One => self.read_le(1),
            SizeBytes::Two => self.read_le(2),
            SizeBytes::Four => self.read_le(4),
            SizeBytes::Eight => self.read_le(8),
            SizeBytes::Var => match self.read_varint() {
                Ok(v) => Ok(v as u128),
                Err(e) => Err(e),
            },
        };
        let n = match read {
            Ok(n) => n,
            Err(e) => {
                return Err(e);
            },
        };
        proof {
            let rest = old(self).rest();
            match sb {
                SizeBytes::One => lemma_le_value_bound(rest.subrange(0, 1)),
                SizeBytes::Two => lemma_le_value_bound(rest.subrange(0, 2)),
                SizeBytes::Four => lemma_le_value_bound(rest.subrange(0, 4)),
                SizeBytes::Eight => lemma_le_value_bound(rest.subrange(0, 8)),
                SizeBytes::Var => {},
            }
        }
        if n > usize::MAX as u128 {
            return Err(BinverseError::InvalidData);
        }
        Ok(n as usize)
    }

    /// Reads a value of type `T`.
    pub fn deserialize<T: Deserialize>(&mut self) -> (res: BinverseResult<T>)
        ensures
            final(self).rev() == old(self).rev(),
            match T::decoding(old(self).rest()) {
                Ok((v, n)) => res matches Ok(x) && x.deep_view() == v && n <= old(self).rest().len()
                    && final(self).rest()
                    == old(self).rest().subrange(n as int, old(self).rest().len() as int),
                Err(e) => res == Err::<T, BinverseError>(e),
            },
    {
        T::deserialize(self)
    }

    /// Reads a container of type `T` whose length prefix was written under
    /// the width `size_bytes`.
    pub fn deserialize_sized<T: SizedDeserialize>(&mut self, size_bytes: SizeBytes) -> (res:
        BinverseResult<T>)
        ensures
            final(self).rev() == old(self).rev(),
            match size_decoding(size_bytes, old(self).rest()) {
                Ok((n, k)) => match T::elements_decoding(
                    old(self).rest().subrange(k as int, old(self).rest().len() as int),
                    n,
                ) {
                    Ok((v, j)) => res matches Ok(x) && x.deep_view() == v && k + j <= old(self).rest().len()
                        && final(self).rest()
                        == old(self).rest().subrange((k + j) as int, old(self).rest().len() as int),
                    Err(e) => res == Err::<T, BinverseError>(e),
                },
                Err(e) => res == Err::<T, BinverseError>(e),
            },
    {
        let size = match self.read_size(size_bytes) {
            Ok(n) => n,
            Err(e) => {
                return Err(e);
            },
        };
        let ghost mid = self.rest();
        let res = T::deserialize_sized(self, size);
        proof {
            let rest = old(self).rest();
            if let Ok((n, k)) = size_decoding(size_bytes, rest) {
                if let Ok((v, j)) = T::elements_decoding(mid, n) {
                    assert(self.rest() =~= rest.subrange((k + j) as int, rest.len() as int));
                }
            }
        }
        res
    }

    /// The revision of the data being read, which decides which fields it holds.
    pub fn revision(&self) -> (r: u32)
        ensures
            r == self.rev(),
    {
        self.revision
    }

    /// Returns the bytes not read yet.
    pub fn finish(self) -> (r: &'a [u8])
        ensures
            r@ == self.rest(),
    {
        proof {
            use_type_invariant(&self);
        }
        let (_, tail) = self.r.split_at(self.pos);
        tail
    }
}

} // verus!
