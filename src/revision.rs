use vstd::prelude::*;

use crate::error::{BinverseError, BinverseResult};
use crate::serialize::{
    size_decoding, size_encoding, Deserialize, RoundTrip, Serialize, SizeBytes, SizedDeserialize,
    SizedSerialize,
};
use crate::streams::{Deserializer, Serializer};

verus! {

/// The revisions `start <= r < end` over which a field exists; an `end` of
/// `None` means the field was never removed.
#[derive(Clone, Copy, Debug, PartialEq, Eq, Structural)]
pub struct Span {
    /// The first revision with the field.
    pub start: u32,
    /// The first revision without the field again, if any.
    pub end: Option<u32>,
}

impl Span {
    /// Whether revision `r` lies in the span.
    pub open spec fn contains(&self, r: u32) -> bool {
        &&& self.start <= r
        &&& self.end matches Some(e) ==> r < e
    }
}

/// The outermost modifier a field declaration was built with.
#[derive(Clone, Copy, Debug, PartialEq, Eq, Structural)]
pub enum Modifier {
    /// No modifier: the field has always existed.
    Plain,
    /// The field was added at some revision.
    Added,
    /// The field was removed at some revision.
    Removed,
}

/// When a field exists: a union of disjoint spans of revisions, built by
/// applying "added at" and "removed at" modifiers to a field that has always
/// existed. Modifiers alternate, and each one lies past the one before.
pub struct Lifecycle {
    spans: Vec<Span>,
    last: Modifier,
}

impl Lifecycle {
    #[verifier::type_invariant]
    spec fn inv(&self) -> bool {
        let s = self.spans@;
        &&& s.len() > 0
        &&& forall|i: int| 0 <= i < s.len() - 1 ==> (#[trigger] s[i]).end is Some
        &&& forall|i: int|
            0 <= i < s.len() - 1 ==> s[i].end->0 < (#[trigger] s[i + 1]).start
        &&& forall|i: int| 0 <= i < s.len() ==> ((#[trigger] s[i]).end matches Some(e) ==> s[i].start < e)
        &&& (self.last == Modifier::Removed) == (s.last().end is Some)
        &&& self.last == Modifier::Plain ==> s == seq![Span { start: 0, end: None }]
    }

    /// Whether the field exists at revision `r`.
    pub closed spec fn present(&self, r: u32) -> bool {
        exists|i: int| 0 <= i < self.spans@.len() && (#[trigger] self.spans@[i]).contains(r)
    }

    /// The outermost modifier.
    pub closed spec fn modifier(&self) -> Modifier {
        self.last
    }

    /// The newest span: the one the next modifier acts on.
    pub closed spec fn newest(&self) -> Span {
        self.spans@.last()
    }

    /// A field that has always existed.
    pub fn always() -> (l: Self)
        ensures
            forall|r: u32| l.present(r),
            l.modifier() == Modifier::Plain,
            l.newest() == (Span { start: 0, end: None }),
    {
        let spans = vec![Span { start: 0, end: None }];
        assert(spans@ =~= seq![Span { start: 0, end: None }]);
        let l = Lifecycle { spans, last: Modifier::Plain };
        assert forall|r: u32| l.present(r) by {
            assert(l.spans@[0].contains(r));
        }
        l
    }

    /// The field, (re)added at revision `revision`. Refused when the
    /// outermost modifier is already "added", or when it is "removed" at a
    /// revision not before `revision`.
    pub fn added(self, revision: u32) -> (r: Option<Self>)
        ensures
            r is None <==> (self.modifier() == Modifier::Added || (self.modifier()
                == Modifier::Removed && revision <= self.newest().end->0)),
            r matches Some(l) ==> {
                &&& l.modifier() == Modifier::Added
                &&& l.newest() == (Span { start: revision, end: None })
                &&& forall|x: u32|
                    l.present(x) == ((self.modifier() == Modifier::Removed && self.present(x))
                        || revision <= x)
            },
    {
        proof {
            use_type_invariant(&self);
        }
        let mut spans = self.spans;
        match self.last {
            Modifier::Added => None,
            Modifier::Removed => {
                let end = match spans[spans.len() - 1].end {
                    Some(e) => e,
                    None => 0,
                };
                if revision <= end {
                    return None;
                }
                let ghost old_spans = spans@;
                spans.push(Span { start: revision, end: None });
                let l = Lifecycle { spans, last: Modifier::Added };
                assert forall|x: u32|
                    l.present(x) == ((self.modifier() == Modifier::Removed && self.present(x))
                        || revision <= x) by {
                    if self.present(x) {
                        let i = choose|i: int|
                            0 <= i < old_spans.len() && (#[trigger] old_spans[i]).contains(x);
                        assert(l.spans@[i] == old_spans[i]);
                    }
                    if revision <= x {
                        assert(l.spans@[old_spans.len() as int].contains(x));
                    }
                    if l.present(x) {
                        let i = choose|i: int|
                            0 <= i < l.spans@.len() && (#[trigger] l.spans@[i]).contains(x);
                        if i < old_spans.len() {
                            assert(old_spans[i].contains(x));
                        }
                    }
                }
                Some(l)
            },
            Modifier::Plain => {
                let fresh = vec![Span { start: revision, end: None }];
                assert(fresh@ =~= seq![Span { start: revision, end: None }]);
                let l = Lifecycle { spans: fresh, last: Modifier::Added };
                assert forall|x: u32| l.present(x) == (revision <= x) by {
                    if revision <= x {
                        assert(l.spans@[0].contains(x));
                    }
                }
                Some(l)
            },
        }
    }

    /// The field, removed at revision `revision`. Refused when the outermost
    /// modifier is already "removed", or when the field's newest span does
    /// not start before `revision`.
    pub fn removed(self, revision: u32) -> (r: Option<Self>)
        ensures
            r is None <==> (self.modifier() == Modifier::Removed || revision
                <= self.newest().start),
            r matches Some(l) ==> {
                &&& l.modifier() == Modifier::Removed
                &&& l.newest() == (Span { start: self.newest().start, end: Some(revision) })
                &&& forall|x: u32| l.present(x) == (self.present(x) && x < revision)
            },
    {
        proof {
            use_type_invariant(&self);
        }
        if let Modifier::Removed = self.last {
            return None;
        }
        let mut spans = self.spans;
        let n = spans.len();
        let start = spans[n - 1].start;
        if revision <= start {
            return None;
        }
        let ghost old_spans = spans@;
        spans.pop();
        spans.push(Span { start, end: Some(revision) });
        let l = Lifecycle { spans, last: Modifier::Removed };
        assert forall|x: u32| l.present(x) == (self.present(x) && x < revision) by {
            if self.present(x) && x < revision {
                let i = choose|i: int|
                    0 <= i < old_spans.len() && (#[trigger] old_spans[i]).contains(x);
                assert(l.spans@[i].contains(x));
            }
            if l.present(x) {
                let i = choose|i: int|
                    0 <= i < l.spans@.len() && (#[trigger] l.spans@[i]).contains(x);
                assert(old_spans[i].contains(x));
                if i < n - 1 {
                    assert(old_spans[i].end->0 < old_spans[i + 1].start);
                    if i + 1 < n - 1 {
                        lemma_spans_ordered(old_spans, i + 1, n - 1);
                    }
                }
            }
        }
        Some(l)
    }

    /// Whether the field exists at revision `r`.
    pub fn is_present(&self, r: u32) -> (b: bool)
        ensures
            b == self.present(r),
    {
        let mut i: usize = 0;
        while i < self.spans.len()
            invariant
                i <= self.spans@.len(),
                forall|j: int| 0 <= j < i ==> !(#[trigger] self.spans@[j]).contains(r),
            decreases self.spans@.len() - i,
        {
            let sp = self.spans[i];
            let inside = sp.start <= r && match sp.end {
                Some(e) => r < e,
                None => true,
            };
            if inside {
                return true;
            }
            i = i + 1;
        }
        false
    }
}

/// In well-ordered spans, a later span starts after an earlier one ends.
proof fn lemma_spans_ordered(s: Seq<Span>, i: int, j: int)
    requires
        0 <= i < j < s.len(),
        forall|k: int| 0 <= k < s.len() - 1 ==> (#[trigger] s[k]).end is Some,
        forall|k: int| 0 <= k < s.len() - 1 ==> s[k].end->0 < (#[trigger] s[k + 1]).start,
        forall|k: int| 0 <= k < s.len() ==> ((#[trigger] s[k]).end matches Some(e) ==> s[k].start < e),
    ensures
        s[i].start < s[j].start,
    decreases j - i,
{
    if j > i + 1 {
        lemma_spans_ordered(s, i + 1, j);
    }
    assert(s[i].end->0 < s[i + 1].start);
}

/// What a field writes: its encoding if it exists at the revision being
/// written, nothing otherwise.
pub open spec fn field_encoding<T: Serialize>(present: bool, v: T::V) -> Seq<u8> {
    if present {
        T::encoding(v)
    } else {
        seq![]
    }
}

/// Reading a field: the value from the data if it exists at the revision
/// being read, the default `absent` without reading otherwise.
pub open spec fn field_decoding<T: Deserialize>(present: bool, data: Seq<u8>, absent: T::V) -> BinverseResult<(T::V, nat)> {
    if present {
        T::decoding(data)
    } else {
        Ok((absent, 0))
    }
}

/// Writes the field `value` if it exists at the serializer's revision.
pub fn serialize_field<T: Serialize>(s: &mut Serializer, life: &Lifecycle, value: &T) -> (r:
    BinverseResult<()>)
    ensures
        r is Ok,
        final(s).rev() == old(s).rev(),
        final(s).bytes() == old(s).bytes() + field_encoding::<T>(
            life.present(old(s).rev()),
            value.deep_view(),
        ),
{
    if life.is_present(s.revision()) {
        value.serialize(s)
    } else {
        assert(s.bytes() =~= old(s).bytes() + Seq::<u8>::empty());
        Ok(())
    }
}

/// Writes the container field `value` with a length prefix of width `size_bytes`
/// if the field exists at the serializer's revision.
pub fn serialize_field_sized<T: SizedSerialize>(
    s: &mut Serializer,
    life: &Lifecycle,
    size_bytes: SizeBytes,
    value: &T,
) -> (r: BinverseResult<()>)
    ensures
        final(s).rev() == old(s).rev(),
        !life.present(old(s).rev()) ==> r is Ok && final(s).bytes() == old(s).bytes(),
        life.present(old(s).rev()) && T::count(value.deep_view()) > size_bytes.max_spec() ==> r
            == Err::<(), BinverseError>(
            BinverseError::SizeExceeded {
                limit: size_bytes,
                found: T::count(value.deep_view()) as usize,
            },
        ),
        life.present(old(s).rev()) && T::count(value.deep_view()) <= size_bytes.max_spec() ==> r
            is Ok && final(s).bytes() == old(s).bytes() + size_encoding(
            size_bytes,
            T::count(value.deep_view()),
        ) + T::elements_encoding(value.deep_view(), T::count(value.deep_view())),
{
    if life.is_present(s.revision()) {
        s.serialize_sized(size_bytes, value)
    } else {
        Ok(())
    }
}

/// Reads the field if it exists at the deserializer's revision; otherwise
/// reads nothing and returns `absent`, the field's default.
pub fn deserialize_field<T: Deserialize>(d: &mut Deserializer, life: &Lifecycle, absent: T) -> (r:
    BinverseResult<T>)
    ensures
        final(d).rev() == old(d).rev(),
        !life.present(old(d).rev()) ==> r == Ok::<T, BinverseError>(absent) && final(d).rest()
            == old(d).rest(),
        life.present(old(d).rev()) ==> match T::decoding(old(d).rest()) {
            Ok((v, n)) => r matches Ok(x) && x.deep_view() == v && n <= old(d).rest().len()
                && final(d).rest() == old(d).rest().subrange(n as int, old(d).rest().len() as int),
            Err(e) => r == Err::<T, BinverseError>(e),
        },
{
    if life.is_present(d.revision()) {
        d.deserialize()
    } else {
        Ok(absent)
    }
}

/// Reads the container field, whose length prefix has width `size_bytes`,
/// if it exists at the deserializer's revision; otherwise reads nothing and
/// returns `absent`, the field's default.
pub fn deserialize_field_sized<T: SizedDeserialize>(
    d: &mut Deserializer,
    life: &Lifecycle,
    size_bytes: SizeBytes,
    absent: T,
) -> (r: BinverseResult<T>)
    ensures
        final(d).rev() == old(d).rev(),
        !life.present(old(d).rev()) ==> r == Ok::<T, BinverseError>(absent) && final(d).rest()
            == old(d).rest(),
        life.present(old(d).rev()) ==> match size_decoding(size_bytes, old(d).rest()) {
            Ok((n, k)) => match T::elements_decoding(
                old(d).rest().subrange(k as int, old(d).rest().len() as int),
                n,
            ) {
                Ok((v, j)) => r matches Ok(x) && x.deep_view() == v && k + j <= old(d).rest().len()
                    && final(d).rest() == old(d).rest().subrange(
                    (k + j) as int,
                    old(d).rest().len() as int,
                ),
                Err(e) => r == Err::<T, BinverseError>(e),
            },
            Err(e) => r == Err::<T, BinverseError>(e),
        },
{
    if life.is_present(d.revision()) {
        d.deserialize_sized(size_bytes)
    } else {
        Ok(absent)
    }
}

/// A field written at revision `r` and read back at `r` against the same
/// declaration gives the written value if the field exists at `r`, and the
/// default otherwise; either way it consumes exactly the bytes written for
/// it, whatever follows them.
pub proof fn field_round_trip<T: RoundTrip>(
    life: &Lifecycle,
    r: u32,
    value: &T,
    absent: T::V,
    rest: Seq<u8>,
)
    requires
        T::fits(value.deep_view()),
    ensures
        field_decoding::<T>(
            life.present(r),
            field_encoding::<T>(life.present(r), value.deep_view()) + rest,
            absent,
        ) == Ok::<(T::V, nat), BinverseError>(
            (
                if life.present(r) {
                    value.deep_view()
                } else {
                    absent
                },
                field_encoding::<T>(life.present(r), value.deep_view()).len(),
            ),
        ),
{
    if life.present(r) {
        value.lemma_round_trip(rest);
    }
}

} // verus!
