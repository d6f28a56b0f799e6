use vstd::prelude::*;

use crate::error::{eof, BinverseError, BinverseResult, IoErrorKind};
use crate::serialize::{Deserialize, RoundTrip, Serialize};
use crate::streams::{Deserializer, Serializer};

verus! {

/// The most bytes a varint of a `u64` takes.
pub const MAX_LEN: usize = 10;

/// `128` to the power `i`: the weight of the `i`-th seven-bit group.
pub open spec fn pow128(i: nat) -> nat
    decreases i,
{
    if i == 0 {
        1
    } else {
        128 * pow128((i - 1) as nat)
    }
}

/// The bytes that encode `x`: seven bits per byte, low group first, the high
/// bit set on every byte but the last.
pub open spec fn varint_encoding(x: u64) -> Seq<u8>
    decreases x,
{
    if x < 128 {
        seq![x as u8]
    } else {
        seq![(x % 128 + 128) as u8] + varint_encoding(x / 128)
    }
}

/// Reading the groups of a varint from index `i` of `data` on, where `i`
/// bytes of it lie before: the value of those groups and the index just after
/// the varint's last byte.
pub open spec fn varint_decoding_from(data: Seq<u8>, i: nat) -> BinverseResult<(nat, nat)>
    decreases 10 - i,
{
    if i >= 10 {
        Err(BinverseError::VarIntOverflow)
    } else if i >= data.len() {
        Err(eof())
    } else if data[i as int] < 128 {
        if i == 9 && data[i as int] > 1 {
            Err(BinverseError::VarIntOverflow)
        } else {
            Ok((data[i as int] as nat, i + 1))
        }
    } else {
        match varint_decoding_from(data, i + 1) {
            Ok((v, n)) => Ok(((data[i as int] - 128) as nat + 128 * v, n)),
            Err(e) => Err(e),
        }
    }
}

/// Reading a varint from the start of `data`: its value and its length in bytes.
pub open spec fn varint_decoding(data: Seq<u8>) -> BinverseResult<(u64, nat)> {
    match varint_decoding_from(data, 0) {
        Ok((v, n)) => Ok((v as u64, n)),
        Err(e) => Err(e),
    }
}

/// The groups below index `i` contribute `x`, those from `i` on weigh `p` each.
pub open spec fn with_low_groups(x: nat, p: nat, r: BinverseResult<(nat, nat)>) -> BinverseResult<(nat, nat)> {
    match r {
        Ok((v, n)) => Ok((x + p * v, n)),
        Err(e) => Err(e),
    }
}

proof fn lemma_pow128_mono(i: nat, j: nat)
    requires
        i <= j,
    ensures
        1 <= pow128(i) <= pow128(j),
    decreases j,
{
    if j > 0 {
        let i1 = if i == j {
            (j - 1) as nat
        } else {
            i
        };
        lemma_pow128_mono(i1, (j - 1) as nat);
    }
}

proof fn lemma_pow128_values()
    ensures
        pow128(8) == 0x100_0000_0000_0000,
        pow128(9) == 0x8000_0000_0000_0000,
        pow128(10) == 0x40_0000_0000_0000_0000,
{
    reveal_with_fuel(pow128, 11);
}

/// What a successful read of the groups from `i` on can be.
proof fn lemma_decoding_from_bounds(data: Seq<u8>, i: nat)
    ensures
        varint_decoding_from(data, i) matches Ok((v, n)) ==> i < n <= 10 && n <= data.len() && v < 2
            * pow128((9 - i) as nat),
    decreases 10 - i,
{
    if i < 9 && i < data.len() && data[i as int] >= 128 {
        lemma_decoding_from_bounds(data, i + 1);
        if let Ok((v, n)) = varint_decoding_from(data, i + 1) {
            let b = (data[i as int] - 128) as nat;
            assert(pow128((9 - i) as nat) == 128 * pow128((9 - (i + 1)) as nat));
            assert(b + 128 * v < 2 * pow128((9 - i) as nat)) by (nonlinear_arith)
                requires
                    b < 128,
                    v < 2 * pow128((9 - (i + 1)) as nat),
                    pow128((9 - i) as nat) == 128 * pow128((9 - (i + 1)) as nat),
            ;
        }
    } else if i < 10 && i < data.len() && data[i as int] < 128 {
        lemma_pow128_mono(0, (9 - i) as nat);
    }
}

/// A decoded varint fits in 64 bits and in the input.
pub proof fn lemma_decoding_bounds(data: Seq<u8>)
    ensures
        varint_decoding_from(data, 0) matches Ok((v, n)) ==> 0 < n <= 10 && n <= data.len() && v
            <= u64::MAX,
{
    lemma_decoding_from_bounds(data, 0);
    lemma_pow128_values();
}

/// An encoding is one to ten bytes long.
pub proof fn varint_encoding_len(x: u64)
    ensures
        1 <= varint_encoding(x).len() <= 10,
{
    lemma_encoding_len_bound(x);
    let len = varint_encoding(x).len();
    if len > 10 {
        lemma_pow128_values();
        lemma_pow128_mono(10, (len - 1) as nat);
    }
}

proof fn lemma_encoding_len_bound(x: u64)
    ensures
        1 <= varint_encoding(x).len(),
        varint_encoding(x).len() >= 2 ==> x >= pow128((varint_encoding(x).len() - 1) as nat),
    decreases x,
{
    if x >= 128 {
        lemma_encoding_len_bound(x / 128);
        let k = varint_encoding(x / 128).len();
        assert(pow128(k) == 128 * pow128((k - 1) as nat));
        if k >= 2 {
            assert(x >= 128 * pow128((k - 1) as nat)) by (nonlinear_arith)
                requires
                    x / 128 >= pow128((k - 1) as nat),
            ;
        } else {
            assert(pow128(1) == 128) by {
                reveal_with_fuel(pow128, 2);
            }
        }
    }
}

proof fn lemma_decode_encoding_from(x: u64, data: Seq<u8>, i: nat)
    requires
        i < 10,
        x < 2 * pow128((9 - i) as nat),
        i + varint_encoding(x).len() <= data.len(),
        data.subrange(i as int, (i + varint_encoding(x).len()) as int) == varint_encoding(x),
    ensures
        varint_decoding_from(data, i) == Ok::<(nat, nat), BinverseError>(
            (x as nat, i + varint_encoding(x).len()),
        ),
    decreases x,
{
    let enc = varint_encoding(x);
    assert(data[i as int] == enc[0]);
    if x >= 128 {
        let tail = varint_encoding(x / 128);
        if i == 9 {
            assert(pow128(0) == 1);
        }
        assert(i < 9);
        assert(pow128((9 - i) as nat) == 128 * pow128((9 - (i + 1)) as nat));
        assert(x / 128 < 2 * pow128((9 - (i + 1)) as nat)) by (nonlinear_arith)
            requires
                x < 2 * pow128((9 - i) as nat),
                pow128((9 - i) as nat) == 128 * pow128((9 - (i + 1)) as nat),
        ;
        assert(data.subrange((i + 1) as int, (i + 1 + tail.len()) as int) == tail) by {
            assert(enc == seq![(x % 128 + 128) as u8] + tail);
            assert(data.subrange((i + 1) as int, (i + 1 + tail.len()) as int) =~= enc.subrange(1, enc.len() as int));
            assert(enc.subrange(1, enc.len() as int) =~= tail);
        }
        lemma_decode_encoding_from(x / 128, data, i + 1);
    } else {
        lemma_pow128_mono(0, (9 - i) as nat);
        if i == 9 {
            assert(pow128(0) == 1);
        }
    }
}

/// Decoding an encoding gives back the value and consumes exactly its bytes,
/// whatever follows.
pub proof fn varint_round_trip(x: u64, rest: Seq<u8>)
    ensures
        varint_decoding(varint_encoding(x) + rest) == Ok::<(u64, nat), BinverseError>(
            (x, varint_encoding(x).len()),
        ),
{
    let data = varint_encoding(x) + rest;
    lemma_pow128_values();
    assert(data.subrange(0, varint_encoding(x).len() as int) =~= varint_encoding(x));
    lemma_decode_encoding_from(x, data, 0);
}

proof fn lemma_overflow_from(data: Seq<u8>, i: nat)
    requires
        i <= 9,
        data.len() >= 10,
        forall|j: int| 0 <= j < 9 ==> data[j] >= 128,
        data[9] > 1,
    ensures
        varint_decoding_from(data, i) == Err::<(nat, nat), BinverseError>(
            BinverseError::VarIntOverflow,
        ),
    decreases 10 - i,
{
    if i < 9 {
        lemma_overflow_from(data, i + 1);
    } else {
        reveal_with_fuel(varint_decoding_from, 2);
    }
}

/// Ten bytes whose first nine carry the continuation bit and whose tenth has
/// a bit above bit 0 set are an overflow: either the tenth byte carries more
/// than the one bit left of 64, or the varint runs past ten bytes.
pub proof fn varint_overflow(data: Seq<u8>)
    requires
        data.len() >= 10,
        forall|j: int| 0 <= j < 9 ==> data[j] >= 128,
        data[9] > 1,
    ensures
        varint_decoding(data) == Err::<(u64, nat), BinverseError>(BinverseError::VarIntOverflow),
{
    lemma_overflow_from(data, 0);
}

/// Reads an unsigned 64-bit varint from the start of `r`, returning it and
/// the number of bytes it took.
pub fn read(r: &[u8]) -> (res: BinverseResult<(u64, usize)>)
    ensures
        match varint_decoding(r@) {
            Ok((v, n)) => res == Ok::<(u64, usize), BinverseError>((v, n as usize)),
            Err(e) => res == Err::<(u64, usize), BinverseError>(e),
        },
{
    proof {
        lemma_pow128_values();
        lemma_decoding_bounds(r@);
    }
    let mut x: u64 = 0;
    let mut p: u64 = 1;
    let mut i: usize = 0;
    while i < MAX_LEN
        invariant
            i < 10,
            p == pow128(i as nat),
            x < p,
            varint_decoding_from(r@, 0) == with_low_groups(
                x as nat,
                p as nat,
                varint_decoding_from(r@, i as nat),
            ),
        decreases 10 - i,
    {
        if i >= r.len() {
            return Err(BinverseError::IO(IoErrorKind::UnexpectedEof));
        }
        let b = r[i];
        if i == MAX_LEN - 1 && b > 1 {
            proof {
                reveal_with_fuel(varint_decoding_from, 2);
            }
            return Err(BinverseError::VarIntOverflow);
        }
        proof {
            lemma_pow128_values();
        }
        if b < 128 {
            if i < 9 {
                proof {
                    lemma_pow128_mono(i as nat, 8);
                }
                assert(x + b * p < 128 * p) by (nonlinear_arith)
                    requires
                        x < p,
                        b < 128,
                ;
                assert(128 * p <= 0x8000_0000_0000_0000) by (nonlinear_arith)
                    requires
                        p <= pow128(8),
                        pow128(8) == 0x100_0000_0000_0000,
                ;
            } else {
                assert(x + b * p <= u64::MAX) by (nonlinear_arith)
                    requires
                        x < p,
                        b <= 1,
                        p == 0x8000_0000_0000_0000,
                ;
            }
            assert(x + p * b == x + b * p) by (nonlinear_arith);
            return Ok((x + (b as u64) * p, i + 1));
        }
        assert(i < 9);
        proof {
            lemma_pow128_mono(i as nat, 8);
            assert(pow128((i + 1) as nat) == 128 * pow128(i as nat));
        }
        let ghost old_x = x;
        let ghost old_p = p;
        assert(x + (b - 128) * p < 128 * p) by (nonlinear_arith)
            requires
                x < p,
                b - 128 < 128,
        ;
        assert(128 * p <= 0x8000_0000_0000_0000) by (nonlinear_arith)
            requires
                p <= pow128(8),
                pow128(8) == 0x100_0000_0000_0000,
        ;
        x = x + ((b - 128) as u64) * p;
        p = p * 128;
        i = i + 1;
        proof {
            let bb = (b - 128) as nat;
            if let Ok((v, n)) = varint_decoding_from(r@, i as nat) {
                assert(old_x + old_p * (bb + 128 * v) == x + p * v) by (nonlinear_arith)
                    requires
                        x == old_x + bb * old_p,
                        p == 128 * old_p,
                ;
            }
        }
    }
    Err(BinverseError::VarIntOverflow)
}

/// Appends the varint encoding of `x` to `w`.
pub fn write(x: u64, w: &mut Vec<u8>)
    ensures
        final(w)@ == old(w)@ + varint_encoding(x),
{
    let mut x = x;
    let ghost x0 = x;
    let ghost start = w@;
    while x >= 128
        invariant
            w@ + varint_encoding(x) == start + varint_encoding(x0),
        decreases x,
    {
        let ghost before = w@;
        w.push(((x % 128) + 128) as u8);
        assert(w@ + varint_encoding(x / 128) =~= before + varint_encoding(x));
        x = x / 128;
    }
    w.push(x as u8);
    assert(w@ =~= start + varint_encoding(x0));
}

/// A `u64` that is written as a varint.
#[derive(Debug, Clone, Copy, Hash, Default, PartialEq, Eq, PartialOrd, Ord)]
pub struct VarInt(pub u64);

impl DeepView for VarInt {
    type V = u64;

    open spec fn deep_view(&self) -> u64 {
        self.0
    }
}

impl Serialize for VarInt {
    open spec fn encoding(v: u64) -> Seq<u8> {
        varint_encoding(v)
    }

    open spec fn fits(v: u64) -> bool {
        true
    }

    fn serialize(&self, s: &mut Serializer) -> (r: BinverseResult<()>) {
        s.write_varint(self.0);
        Ok(())
    }
}

impl Deserialize for VarInt {
    open spec fn decoding(data: Seq<u8>) -> BinverseResult<(u64, nat)> {
        varint_decoding(data)
    }

    fn deserialize(d: &mut Deserializer) -> (r: BinverseResult<VarInt>) {
        match d.read_varint() {
            Ok(v) => Ok(VarInt(v)),
            Err(e) => Err(e),
        }
    }
}

impl RoundTrip for VarInt {
    proof fn lemma_round_trip(&self, rest: Seq<u8>) {
        varint_round_trip(self.0, rest);
    }
}

} // verus!
