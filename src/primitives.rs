use vstd::prelude::*;

use crate::error::{eof, BinverseError, BinverseResult};
use crate::serialize::{Deserialize, RoundTrip, Serialize};
use crate::streams::{Deserializer, Serializer};

verus! {

/// `256` to the power `n`.
pub open spec fn pow256(n: nat) -> nat
    decreases n,
{
    if n == 0 {
        1
    } else {
        256 * pow256((n - 1) as nat)
    }
}

/// The `n` low bytes of `x`, least significant first.
pub open spec fn le_bytes(x: nat, n: nat) -> Seq<u8>
    decreases n,
{
    if n == 0 {
        seq![]
    } else {
        seq![(x % 256) as u8] + le_bytes(x / 256, (n - 1) as nat)
    }
}

/// The number whose little-endian bytes are `b`.
pub open spec fn le_value(b: Seq<u8>) -> nat
    decreases b.len(),
{
    if b.len() == 0 {
        0
    } else {
        b[0] as nat + 256 * le_value(b.subrange(1, b.len() as int))
    }
}

/// Powers of `256` grow with the exponent.
pub proof fn lemma_pow256_mono(i: nat, j: nat)
    requires
        i <= j,
    ensures
        1 <= pow256(i) <= pow256(j),
    decreases j,
{
    if j > 0 {
        let i1 = if i == j {
            (j - 1) as nat
        } else {
            i
        };
        lemma_pow256_mono(i1, (j - 1) as nat);
    }
}

/// The powers of `256` that bound the fixed widths.
pub proof fn lemma_pow256_values()
    ensures
        pow256(1) == 0x100,
        pow256(2) == 0x1_0000,
        pow256(4) == 0x1_0000_0000,
        pow256(8) == 0x1_0000_0000_0000_0000,
        pow256(15) == 0x100_0000_0000_0000_0000_0000_0000_0000,
        pow256(16) == 0x1_0000_0000_0000_0000_0000_0000_0000_0000,
{
    reveal_with_fuel(pow256, 17);
}

/// A number read from `b.len()` bytes is below `256` to that power.
pub proof fn lemma_le_value_bound(b: Seq<u8>)
    ensures
        le_value(b) < pow256(b.len()),
    decreases b.len(),
{
    if b.len() > 0 {
        let tail = b.subrange(1, b.len() as int);
        lemma_le_value_bound(tail);
        assert(b[0] as nat + 256 * le_value(tail) < 256 * pow256(tail.len())) by (nonlinear_arith)
            requires
                b[0] < 256,
                le_value(tail) < pow256(tail.len()),
        ;
    }
}

/// Reading back the `n` low bytes of a number below `256` to the power `n`
/// gives the number.
pub proof fn lemma_le_round_trip(x: nat, n: nat, rest: Seq<u8>)
    requires
        x < pow256(n),
    ensures
        le_bytes(x, n).len() == n,
        (le_bytes(x, n) + rest).subrange(0, n as int) == le_bytes(x, n),
        le_value(le_bytes(x, n)) == x,
    decreases n,
{
    if n > 0 {
        assert(x / 256 < pow256((n - 1) as nat)) by (nonlinear_arith)
            requires
                x < 256 * pow256((n - 1) as nat),
        ;
        lemma_le_round_trip(x / 256, (n - 1) as nat, rest);
        let b = le_bytes(x, n);
        assert(b.subrange(1, b.len() as int) =~= le_bytes(x / 256, (n - 1) as nat));
    }
    assert((le_bytes(x, n) + rest).subrange(0, n as int) =~= le_bytes(x, n));
}

/// A single byte is written as itself.
pub proof fn lemma_le_byte(b: u8)
    ensures
        le_bytes(b as nat, 1) == seq![b],
{
    reveal_with_fuel(le_bytes, 2);
    assert(le_bytes(b as nat, 1) =~= seq![b]);
}

impl Serialize for bool {
    open spec fn encoding(v: bool) -> Seq<u8> {
        seq![if v { 1u8 } else { 0u8 }]
    }

    open spec fn fits(v: bool) -> bool {
        true
    }

    fn serialize(&self, s: &mut Serializer) -> (r: BinverseResult<()>) {
        let b: u128 = if *self { 1 } else { 0 };
        s.write_le(b, 1);
        assert(le_bytes(b as nat, 1) =~= Self::encoding(*self)) by {
            reveal_with_fuel(le_bytes, 2);
        }
        Ok(())
    }
}

impl Deserialize for bool {
    open spec fn decoding(data: Seq<u8>) -> BinverseResult<(bool, nat)> {
        if data.len() < 1 {
            Err(eof())
        } else if data[0] == 0 {
            Ok((false, 1))
        } else if data[0] == 1 {
            Ok((true, 1))
        } else {
            Err(BinverseError::InvalidData)
        }
    }

    fn deserialize(d: &mut Deserializer) -> (r: BinverseResult<bool>) {
        let b = match d.take(1) {
            Ok(b) => b,
            Err(e) => {
                return Err(e);
            },
        };
        if b[0] == 0 {
            Ok(false)
        } else if b[0] == 1 {
            Ok(true)
        } else {
            Err(BinverseError::InvalidData)
        }
    }
}

impl RoundTrip for bool {
    proof fn lemma_round_trip(&self, rest: Seq<u8>) {
    }
}

impl Serialize for u8 {
    open spec fn encoding(v: u8) -> Seq<u8> {
        le_bytes(v as nat, 1)
    }

    open spec fn fits(v: u8) -> bool {
        true
    }

    fn serialize(&self, s: &mut Serializer) -> (r: BinverseResult<()>) {
        s.write_le(*self as u128, 1);
        Ok(())
    }
}

impl Deserialize for u8 {
    open spec fn decoding(data: Seq<u8>) -> BinverseResult<(u8, nat)> {
        if data.len() < 1 {
            Err(eof())
        } else {
            Ok((le_value(data.subrange(0, 1)) as u8, 1))
        }
    }

    fn deserialize(d: &mut Deserializer) -> (r: BinverseResult<u8>) {
        let ghost rest = d.rest();
        match d.read_le(1) {
            Ok(v) => {
                proof {
                    lemma_le_value_bound(rest.subrange(0, 1));
                    lemma_pow256_values();
                }
                Ok(v as u8)
            },
            Err(e) => Err(e),
        }
    }
}

impl RoundTrip for u8 {
    proof fn lemma_round_trip(&self, rest: Seq<u8>) {
        lemma_pow256_values();
        lemma_le_round_trip(*self as nat, 1, rest);
    }
}

impl Serialize for i8 {
    open spec fn encoding(v: i8) -> Seq<u8> {
        le_bytes((v as u8) as nat, 1)
    }

    open spec fn fits(v: i8) -> bool {
        true
    }

    fn serialize(&self, s: &mut Serializer) -> (r: BinverseResult<()>) {
        s.write_le((*self as u8) as u128, 1);
        Ok(())
    }
}

impl Deserialize for i8 {
    open spec fn decoding(data: Seq<u8>) -> BinverseResult<(i8, nat)> {
        if data.len() < 1 {
            Err(eof())
        } else {
            Ok(((le_value(data.subrange(0, 1)) as u8) as i8, 1))
        }
    }

    fn deserialize(d: &mut Deserializer) -> (r: BinverseResult<i8>) {
        let ghost rest = d.rest();
        match d.read_le(1) {
            Ok(v) => {
                proof {
                    lemma_le_value_bound(rest.subrange(0, 1));
                    lemma_pow256_values();
                }
                Ok((v as u8) as i8)
            },
            Err(e) => Err(e),
        }
    }
}

impl RoundTrip for i8 {
    proof fn lemma_round_trip(&self, rest: Seq<u8>) {
        let x = *self;
        lemma_pow256_values();
        lemma_le_round_trip((x as u8) as nat, 1, rest);
        assert((x as u8) as i8 == x) by (bit_vector);
    }
}

impl Serialize for u16 {
    open spec fn encoding(v: u16) -> Seq<u8> {
        le_bytes(v as nat, 2)
    }

    open spec fn fits(v: u16) -> bool {
        true
    }

    fn serialize(&self, s: &mut Serializer) -> (r: BinverseResult<()>) {
        s.write_le(*self as u128, 2);
        Ok(())
    }
}

impl Deserialize for u16 {
    open spec fn decoding(data: Seq<u8>) -> BinverseResult<(u16, nat)> {
        if data.len() < 2 {
            Err(eof())
        } else {
            Ok((le_value(data.subrange(0, 2)) as u16, 2))
        }
    }

    fn deserialize(d: &mut Deserializer) -> (r: BinverseResult<u16>) {
        let ghost rest = d.rest();
        match d.read_le(2) {
            Ok(v) => {
                proof {
                    lemma_le_value_bound(rest.subrange(0, 2));
                    lemma_pow256_values();
                }
                Ok(v as u16)
            },
            Err(e) => Err(e),
        }
    }
}

impl RoundTrip for u16 {
    proof fn lemma_round_trip(&self, rest: Seq<u8>) {
        lemma_pow256_values();
        lemma_le_round_trip(*self as nat, 2, rest);
    }
}

impl Serialize for i16 {
    open spec fn encoding(v: i16) -> Seq<u8> {
        le_bytes((v as u16) as nat, 2)
    }

    open spec fn fits(v: i16) -> bool {
        true
    }

    fn serialize(&self, s: &mut Serializer) -> (r: BinverseResult<()>) {
        s.write_le((*self as u16) as u128, 2);
        Ok(())
    }
}

impl Deserialize for i16 {
    open spec fn decoding(data: Seq<u8>) -> BinverseResult<(i16, nat)> {
        if data.len() < 2 {
            Err(eof())
        } else {
            Ok(((le_value(data.subrange(0, 2)) as u16) as i16, 2))
        }
    }

    fn deserialize(d: &mut Deserializer) -> (r: BinverseResult<i16>) {
        let ghost rest = d.rest();
        match d.read_le(2) {
            Ok(v) => {
                proof {
                    lemma_le_value_bound(rest.subrange(0, 2));
                    lemma_pow256_values();
                }
                Ok((v as u16) as i16)
            },
            Err(e) => Err(e),
        }
    }
}

impl RoundTrip for i16 {
    proof fn lemma_round_trip(&self, rest: Seq<u8>) {
        let x = *self;
        lemma_pow256_values();
        lemma_le_round_trip((x as u16) as nat, 2, rest);
        assert((x as u16) as i16 == x) by (bit_vector);
    }
}

impl Serialize for u32 {
    open spec fn encoding(v: u32) -> Seq<u8> {
        le_bytes(v as nat, 4)
    }

    open spec fn fits(v: u32) -> bool {
        true
    }

    fn serialize(&self, s: &mut Serializer) -> (r: BinverseResult<()>) {
        s.write_le(*self as u128, 4);
        Ok(())
    }
}

impl Deserialize for u32 {
    open spec fn decoding(data: Seq<u8>) -> BinverseResult<(u32, nat)> {
        if data.len() < 4 {
            Err(eof())
        } else {
            Ok((le_value(data.subrange(0, 4)) as u32, 4))
        }
    }

    fn deserialize(d: &mut Deserializer) -> (r: BinverseResult<u32>) {
        let ghost rest = d.rest();
        match d.read_le(4) {
            Ok(v) => {
                proof {
                    lemma_le_value_bound(rest.subrange(0, 4));
                    lemma_pow256_values();
                }
                Ok(v as u32)
            },
            Err(e) => Err(e),
        }
    }
}

impl RoundTrip for u32 {
    proof fn lemma_round_trip(&self, rest: Seq<u8>) {
        lemma_pow256_values();
        lemma_le_round_trip(*self as nat, 4, rest);
    }
}

impl Serialize for i32 {
    open spec fn encoding(v: i32) -> Seq<u8> {
        le_bytes((v as u32) as nat, 4)
    }

    open spec fn fits(v: i32) -> bool {
        true
    }

    fn serialize(&self, s: &mut Serializer) -> (r: BinverseResult<()>) {
        s.write_le((*self as u32) as u128, 4);
        Ok(())
    }
}

impl Deserialize for i32 {
    open spec fn decoding(data: Seq<u8>) -> BinverseResult<(i32, nat)> {
        if data.len() < 4 {
            Err(eof())
        } else {
            Ok(((le_value(data.subrange(0, 4)) as u32) as i32, 4))
        }
    }

    fn deserialize(d: &mut Deserializer) -> (r: BinverseResult<i32>) {
        let ghost rest = d.rest();
        match d.read_le(4) {
            Ok(v) => {
                proof {
                    lemma_le_value_bound(rest.subrange(0, 4));
                    lemma_pow256_values();
                }
                Ok((v as u32) as i32)
            },
            Err(e) => Err(e),
        }
    }
}

impl RoundTrip for i32 {
    proof fn lemma_round_trip(&self, rest: Seq<u8>) {
        let x = *self;
        lemma_pow256_values();
        lemma_le_round_trip((x as u32) as nat, 4, rest);
        assert((x as u32) as i32 == x) by (bit_vector);
    }
}

impl Serialize for u64 {
    open spec fn encoding(v: u64) -> Seq<u8> {
        le_bytes(v as nat, 8)
    }

    open spec fn fits(v: u64) -> bool {
        true
    }

    fn serialize(&self, s: &mut Serializer) -> (r: BinverseResult<()>) {
        s.write_le(*self as u128, 8);
        Ok(())
    }
}

impl Deserialize for u64 {
    open spec fn decoding(data: Seq<u8>) -> BinverseResult<(u64, nat)> {
        if data.len() < 8 {
            Err(eof())
        } else {
            Ok((le_value(data.subrange(0, 8)) as u64, 8))
        }
    }

    fn deserialize(d: &mut Deserializer) -> (r: BinverseResult<u64>) {
        let ghost rest = d.rest();
        match d.read_le(8) {
            Ok(v) => {
                proof {
                    lemma_le_value_bound(rest.subrange(0, 8));
                    lemma_pow256_values();
                }
                Ok(v as u64)
            },
            Err(e) => Err(e),
        }
    }
}

impl RoundTrip for u64 {
    proof fn lemma_round_trip(&self, rest: Seq<u8>) {
        lemma_pow256_values();
        lemma_le_round_trip(*self as nat, 8, rest);
    }
}

impl Serialize for i64 {
    open spec fn encoding(v: i64) -> Seq<u8> {
        le_bytes((v as u64) as nat, 8)
    }

    open spec fn fits(v: i64) -> bool {
        true
    }

    fn serialize(&self, s: &mut Serializer) -> (r: BinverseResult<()>) {
        s.write_le((*self as u64) as u128, 8);
        Ok(())
    }
}

impl Deserialize for i64 {
    open spec fn decoding(data: Seq<u8>) -> BinverseResult<(i64, nat)> {
        if data.len() < 8 {
            Err(eof())
        } else {
            Ok(((le_value(data.subrange(0, 8)) as u64) as i64, 8))
        }
    }

    fn deserialize(d: &mut Deserializer) -> (r: BinverseResult<i64>) {
        let ghost rest = d.rest();
        match d.read_le(8) {
            Ok(v) => {
                proof {
                    lemma_le_value_bound(rest.subrange(0, 8));
                    lemma_pow256_values();
                }
                Ok((v as u64) as i64)
            },
            Err(e) => Err(e),
        }
    }
}

impl RoundTrip for i64 {
    proof fn lemma_round_trip(&self, rest: Seq<u8>) {
        let x = *self;
        lemma_pow256_values();
        lemma_le_round_trip((x as u64) as nat, 8, rest);
        assert((x as u64) as i64 == x) by (bit_vector);
    }
}

impl Serialize for u128 {
    open spec fn encoding(v: u128) -> Seq<u8> {
        le_bytes(v as nat, 16)
    }

    open spec fn fits(v: u128) -> bool {
        true
    }

    fn serialize(&self, s: &mut Serializer) -> (r: BinverseResult<()>) {
        s.write_le(*self as u128, 16);
        Ok(())
    }
}

impl Deserialize for u128 {
    open spec fn decoding(data: Seq<u8>) -> BinverseResult<(u128, nat)> {
        if data.len() < 16 {
            Err(eof())
        } else {
            Ok((le_value(data.subrange(0, 16)) as u128, 16))
        }
    }

    fn deserialize(d: &mut Deserializer) -> (r: BinverseResult<u128>) {
        let ghost rest = d.rest();
        match d.read_le(16) {
            Ok(v) => {
                proof {
                    lemma_le_value_bound(rest.subrange(0, 16));
                    lemma_pow256_values();
                }
                Ok(v as u128)
            },
            Err(e) => Err(e),
        }
    }
}

impl RoundTrip for u128 {
    proof fn lemma_round_trip(&self, rest: Seq<u8>) {
        lemma_pow256_values();
        lemma_le_round_trip(*self as nat, 16, rest);
    }
}

impl Serialize for i128 {
    open spec fn encoding(v: i128) -> Seq<u8> {
        le_bytes((v as u128) as nat, 16)
    }

    open spec fn fits(v: i128) -> bool {
        true
    }

    fn serialize(&self, s: &mut Serializer) -> (r: BinverseResult<()>) {
        s.write_le((*self as u128) as u128, 16);
        Ok(())
    }
}

impl Deserialize for i128 {
    open spec fn decoding(data: Seq<u8>) -> BinverseResult<(i128, nat)> {
        if data.len() < 16 {
            Err(eof())
        } else {
            Ok(((le_value(data.subrange(0, 16)) as u128) as i128, 16))
        }
    }

    fn deserialize(d: &mut Deserializer) -> (r: BinverseResult<i128>) {
        let ghost rest = d.rest();
        match d.read_le(16) {
            Ok(v) => {
                proof {
                    lemma_le_value_bound(rest.subrange(0, 16));
                    lemma_pow256_values();
                }
                Ok((v as u128) as i128)
            },
            Err(e) => Err(e),
        }
    }
}

impl RoundTrip for i128 {
    proof fn lemma_round_trip(&self, rest: Seq<u8>) {
        let x = *self;
        lemma_pow256_values();
        lemma_le_round_trip((x as u128) as nat, 16, rest);
        assert((x as u128) as i128 == x) by (bit_vector);
    }
}

} // verus!
