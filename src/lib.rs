//! Compact binary serialization with revision-scoped fields.
//!
//! Values are written to a byte stream without field names or type tags. A
//! single revision number, written once at the start of a stream, decides
//! which fields of a record are present, so data written under an older shape
//! of a record stays readable under a newer one and the other way round.
pub mod containers;
pub mod error;
pub mod primitives;
pub mod revision;
pub mod serialize;
pub mod streams;
pub mod varint;

use vstd::prelude::*;

use crate::error::{eof, BinverseError, BinverseResult};
use crate::primitives::{le_bytes, le_value, lemma_le_round_trip, lemma_pow256_values};
use crate::serialize::{Deserialize, RoundTrip, Serialize};
use crate::streams::{Deserializer, Serializer};

verus! {

/// Appends a revision header and one value to `w` and returns it. To write
/// several values, use a [`Serializer`].
pub fn write<T: Serialize>(w: Vec<u8>, object: T, current_revision: u32) -> (r: BinverseResult<
    Vec<u8>,
>)
    ensures
        r matches Ok(b) && b@ == w@ + le_bytes(current_revision as nat, 4) + T::encoding(
            object.deep_view(),
        ),
{
    let mut s = match Serializer::new(w, current_revision) {
        Ok(s) => s,
        Err(e) => {
            return Err(e);
        },
    };
    let _ = object.serialize(&mut s);
    Ok(s.finish())
}

/// Reads a revision header and one value from `r`, returning the value and
/// the bytes after it. To read several values, use a [`Deserializer`].
pub fn read<'a, T: Deserialize>(r: &'a [u8]) -> (res: BinverseResult<(T, &'a [u8])>)
    ensures
        r@.len() < 4 ==> res == Err::<(T, &'a [u8]), BinverseError>(eof()),
        r@.len() >= 4 ==> match T::decoding(r@.subrange(4, r@.len() as int)) {
            Ok((v, n)) => res matches Ok((x, tail)) && x.deep_view() == v && tail@ == r@.subrange(
                (4 + n) as int,
                r@.len() as int,
            ),
            Err(e) => res == Err::<(T, &'a [u8]), BinverseError>(e),
        },
{
    let mut d = match Deserializer::new(r) {
        Ok(d) => d,
        Err(e) => {
            return Err(e);
        },
    };
    let ghost body = d.rest();
    match d.deserialize::<T>() {
        Ok(t) => {
            let tail = d.finish();
            proof {
                let n = T::decoding(body)->Ok_0.1;
                assert(tail@ =~= r@.subrange((4 + n) as int, r@.len() as int));
            }
            Ok((t, tail))
        },
        Err(e) => Err(e),
    }
}

/// Appends one value to `w`, without a revision header, and returns it. The
/// reader has to know the revision from elsewhere; what a value writes does
/// not depend on it.
pub fn write_no_revision<T: Serialize>(w: Vec<u8>, object: T) -> (r: BinverseResult<Vec<u8>>)
    ensures
        r matches Ok(b) && b@ == w@ + T::encoding(object.deep_view()),
{
    let mut s = Serializer::new_no_revision(w, 0);
    let _ = object.serialize(&mut s);
    Ok(s.finish())
}

/// Reads one value from `r`, which holds no revision header; the data is of
/// revision `revision`. Returns the value and the bytes after it.
pub fn read_no_revision<'a, T: Deserialize>(r: &'a [u8], revision: u32) -> (res: BinverseResult<
    (T, &'a [u8]),
>)
    ensures
        match T::decoding(r@) {
            Ok((v, n)) => res matches Ok((x, tail)) && x.deep_view() == v && tail@ == r@.subrange(
                n as int,
                r@.len() as int,
            ),
            Err(e) => res == Err::<(T, &'a [u8]), BinverseError>(e),
        },
{
    let mut d = Deserializer::new_no_revision(r, revision);
    match d.deserialize::<T>() {
        Ok(t) => Ok((t, d.finish())),
        Err(e) => Err(e),
    }
}

/// What [`write`] appends for a value at some revision, [`read`] reads back:
/// the header gives the revision, the value its model, and nothing of the
/// written bytes is left over.
pub proof fn stream_round_trip<T: RoundTrip>(object: &T, current_revision: u32, rest: Seq<u8>)
    requires
        T::fits(object.deep_view()),
    ensures
        ({
            let data = le_bytes(current_revision as nat, 4) + T::encoding(object.deep_view())
                + rest;
            &&& data.len() >= 4
            &&& le_value(data.subrange(0, 4)) == current_revision
            &&& T::decoding(data.subrange(4, data.len() as int)) == Ok::<
                (T::V, nat),
                BinverseError,
            >((object.deep_view(), T::encoding(object.deep_view()).len()))
        }),
{
    let enc = T::encoding(object.deep_view());
    let header = le_bytes(current_revision as nat, 4);
    lemma_pow256_values();
    lemma_le_round_trip(current_revision as nat, 4, enc + rest);
    object.lemma_round_trip(rest);
    let data = header + enc + rest;
    assert(data =~= header + (enc + rest));
    assert(data.subrange(4, data.len() as int) =~= enc + rest);
}

} // verus!
