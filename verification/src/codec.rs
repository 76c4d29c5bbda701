//! Leaf-delta compression of a permuted dataset.
//!
//! Every leaf of the adapted tree stores its members as byte-encoded deltas
//! against the leaf's center.  One flat byte array concatenates the leaf
//! payloads; each payload is the center position and the member count, each
//! as a little-endian `u64`, followed by one length-prefixed encoding per
//! member.  A separate map keeps the decoded item of every position that
//! serves as some leaf's center, so decoding needs nothing else.

use std::collections::HashMap;
use vstd::bytes::{spec_u64_from_le_bytes, spec_u64_to_le_bytes, u64_from_le_bytes, u64_to_le_bytes};
use vstd::prelude::*;

use crate::metric::{abs_val, Metric, MAX_COORD};

verus! {

/// Offset added to every coordinate delta so that encoded values are never
/// negative: twice the largest coordinate magnitude.
pub const DELTA_BIAS: i64 = 2_000_000;

/// The byte encoding of `target` against `reference`: for each coordinate,
/// the biased delta as a little-endian `u64`.
pub open spec fn encode_spec(reference: Seq<i64>, target: Seq<i64>) -> Seq<u8>
    decreases target.len(),
{
    if target.len() == 0 {
        Seq::empty()
    } else {
        encode_spec(reference.drop_last(), target.drop_last()) + spec_u64_to_le_bytes(
            (target.last() - reference.last() + DELTA_BIAS) as u64,
        )
    }
}

/// Decoding `dim` coordinates of `bytes` against `reference`.
pub open spec fn decode_spec(reference: Seq<i64>, bytes: Seq<u8>, dim: nat) -> Seq<i64>
    decreases dim,
{
    if dim == 0 {
        Seq::empty()
    } else {
        let d = dim as int;
        decode_spec(reference.take(d - 1), bytes.take(8 * (d - 1)), (dim - 1) as nat).push(
            ((spec_u64_from_le_bytes(bytes.subrange(8 * (d - 1), 8 * d)) as i64) - DELTA_BIAS
                + reference[d - 1]) as i64,
        )
    }
}

/// An item whose coordinates stay within the coordinate bound.
pub open spec fn bounded_item(x: Seq<i64>) -> bool {
    forall|i: int| 0 <= i < x.len() ==> abs_val(#[trigger] x[i] as int) <= MAX_COORD as int
}

/// Decoding inverts encoding: for any reference and any bounded target of
/// the same dimensionality, decoding the encoding of the target against that
/// reference gives the target back.
pub proof fn lemma_encode_decode_round_trip(reference: Seq<i64>, target: Seq<i64>)
    requires
        reference.len() == target.len(),
        bounded_item(reference),
        bounded_item(target),
    ensures
        encode_spec(reference, target).len() == 8 * target.len(),
        decode_spec(reference, encode_spec(reference, target), target.len()) == target,
    decreases target.len(),
{
    vstd::bytes::lemma_auto_spec_u64_to_from_le_bytes();
    if target.len() > 0 {
        let d = target.len() as int;
        lemma_encode_decode_round_trip(reference.drop_last(), target.drop_last());
        let enc = encode_spec(reference, target);
        let prev = encode_spec(reference.drop_last(), target.drop_last());
        let chunk = spec_u64_to_le_bytes((target.last() - reference.last() + DELTA_BIAS) as u64);
        assert(enc =~= prev + chunk);
        assert(enc.take(8 * (d - 1)) =~= prev);
        assert(enc.subrange(8 * (d - 1), 8 * d) =~= chunk);
        assert(reference.take(d - 1) =~= reference.drop_last());
        assert(spec_u64_from_le_bytes(chunk) == (target.last() - reference.last()
            + DELTA_BIAS) as u64);
        assert(decode_spec(reference, enc, target.len()) =~= target);
    } else {
        assert(decode_spec(reference, encode_spec(reference, target), 0) =~= target);
    }
}

/// Encode an item against a reference, coordinate by coordinate.
pub fn encode_item(reference: &Vec<i64>, target: &Vec<i64>) -> (r: Vec<u8>)
    requires
        reference@.len() == target@.len(),
        bounded_item(reference@),
        bounded_item(target@),
    ensures
        r@ == encode_spec(reference@, target@),
        r@.len() == 8 * target@.len(),
{
    proof {
        lemma_encode_decode_round_trip(reference@, target@);
    }
    let dim = target.len();
    let mut out: Vec<u8> = Vec::new();
    let mut i: usize = 0;
    while i < dim
        invariant
            i <= dim,
            dim == target@.len(),
            dim == reference@.len(),
            bounded_item(reference@),
            bounded_item(target@),
            out@ == encode_spec(reference@.take(i as int), target@.take(i as int)),
        decreases dim - i,
    {
        let delta = target[i] - reference[i] + DELTA_BIAS;
        let chunk = u64_to_le_bytes(delta as u64);
        let mut w: usize = 0;
        let ghost mid = out@;
        while w < 8
            invariant
                w <= 8,
                chunk@.len() == 8,
                out@ == mid + chunk@.take(w as int),
            decreases 8 - w,
        {
            out.push(chunk[w]);
            proof {
                assert(chunk@.take(w as int).push(chunk@[w as int]) =~= chunk@.take(w as int + 1));
                assert(out@ =~= mid + chunk@.take(w as int + 1));
            }
            w = w + 1;
        }
        proof {
            assert(chunk@.take(8) =~= chunk@);
            assert(reference@.take(i as int + 1).drop_last() =~= reference@.take(i as int));
            assert(target@.take(i as int + 1).drop_last() =~= target@.take(i as int));
            assert(target@.take(i as int + 1).last() == target@[i as int]);
            assert(reference@.take(i as int + 1).last() == reference@[i as int]);
            assert(out@ =~= encode_spec(reference@.take(i as int + 1), target@.take(i as int + 1)));
        }
        i = i + 1;
    }
    proof {
        assert(reference@.take(dim as int) =~= reference@);
        assert(target@.take(dim as int) =~= target@);
    }
    out
}

/// Decode an item from its byte encoding against a reference.
pub fn decode_item(reference: &Vec<i64>, bytes: &Vec<u8>) -> (r: Vec<i64>)
    requires
        bytes@.len() == 8 * reference@.len(),
        bounded_item(reference@),
        forall|i: int|
            0 <= i < reference@.len() ==> spec_u64_from_le_bytes(
                #[trigger] bytes@.subrange(8 * i, 8 * i + 8),
            ) <= 2 * (DELTA_BIAS as int),
    ensures
        r@ == decode_spec(reference@, bytes@, reference@.len()),
        r@.len() == reference@.len(),
{
    let dim = reference.len();
    let blen = bytes.len();
    let mut out: Vec<i64> = Vec::new();
    let mut i: usize = 0;
    while i < dim
        invariant
            i <= dim,
            dim == reference@.len(),
            bytes@.len() == 8 * dim,
            bytes@.len() == blen,
            out@.len() == i,
            bounded_item(reference@),
            forall|t: int|
                0 <= t < reference@.len() ==> spec_u64_from_le_bytes(
                    #[trigger] bytes@.subrange(8 * t, 8 * t + 8),
                ) <= 2 * (DELTA_BIAS as int),
            out@ == decode_spec(reference@.take(i as int), bytes@.take(8 * i as int), i as nat),
        decreases dim - i,
    {
        let mut chunk: Vec<u8> = Vec::new();
        let mut w: usize = 0;
        while w < 8
            invariant
                w <= 8,
                i < dim,
                bytes@.len() == 8 * dim,
                bytes@.len() == blen,
                chunk@ == bytes@.subrange(8 * i as int, 8 * i as int + w as int),
            decreases 8 - w,
        {
            chunk.push(bytes[8 * i + w]);
            proof {
                assert(chunk@ =~= bytes@.subrange(8 * i as int, 8 * i as int + w as int + 1));
            }
            w = w + 1;
        }
        let raw = u64_from_le_bytes(chunk.as_slice());
        proof {
            assert(chunk@ =~= bytes@.subrange(8 * i as int, 8 * i as int + 8));
            assert(raw <= 2 * (DELTA_BIAS as int));
        }
        let value = (raw as i64) - DELTA_BIAS + reference[i];
        out.push(value);
        proof {
            assert(reference@.take(i as int + 1).take(i as int) =~= reference@.take(i as int));
            assert(bytes@.take(8 * (i as int + 1)).take(8 * i as int) =~= bytes@.take(
                8 * i as int,
            ));
            assert(bytes@.take(8 * (i as int + 1)).subrange(8 * i as int, 8 * (i as int + 1))
                =~= bytes@.subrange(8 * i as int, 8 * i as int + 8));
            assert(reference@.take(i as int + 1)[i as int] == reference@[i as int]);
            assert(out@ =~= decode_spec(
                reference@.take(i as int + 1),
                bytes@.take(8 * (i as int + 1)),
                (i + 1) as nat,
            ));
        }
        i = i + 1;
    }
    proof {
        assert(reference@.take(dim as int) =~= reference@);
        assert(bytes@.take(8 * dim as int) =~= bytes@);
    }
    out
}

/// Encoding then decoding returns the original item.
pub fn round_trip(reference: &Vec<i64>, target: &Vec<i64>) -> (r: Vec<i64>)
    requires
        reference@.len() == target@.len(),
        bounded_item(reference@),
        bounded_item(target@),
    ensures
        r@ == target@,
{
    proof {
        lemma_encode_decode_round_trip(reference@, target@);
        vstd::bytes::lemma_auto_spec_u64_to_from_le_bytes();
    }
    let bytes = encode_item(reference, target);
    proof {
        assert forall|i: int| 0 <= i < reference@.len() implies spec_u64_from_le_bytes(
            #[trigger] bytes@.subrange(8 * i, 8 * i + 8),
        ) <= 2 * (DELTA_BIAS as int) by {
            lemma_encode_chunk(reference@, target@, i);
        }
    }
    decode_item(reference, &bytes)
}

/// Each eight-byte chunk of an encoding holds one biased delta, which the
/// coordinate bounds keep within twice the bias.
pub proof fn lemma_encode_chunk(reference: Seq<i64>, target: Seq<i64>, i: int)
    requires
        reference.len() == target.len(),
        bounded_item(reference),
        bounded_item(target),
        0 <= i < target.len(),
    ensures
        encode_spec(reference, target).subrange(8 * i, 8 * i + 8) == spec_u64_to_le_bytes(
            (target[i] - reference[i] + DELTA_BIAS) as u64,
        ),
        spec_u64_from_le_bytes(encode_spec(reference, target).subrange(8 * i, 8 * i + 8)) <= 2 * (
        DELTA_BIAS as int),
    decreases target.len(),
{
    vstd::bytes::lemma_auto_spec_u64_to_from_le_bytes();
    lemma_encode_decode_round_trip(reference, target);
    let d = target.len() as int;
    if i == d - 1 {
        lemma_encode_decode_round_trip(reference.drop_last(), target.drop_last());
        assert(encode_spec(reference, target).subrange(8 * i, 8 * i + 8) =~= spec_u64_to_le_bytes(
            (target[i] - reference[i] + DELTA_BIAS) as u64,
        ));
    } else {
        lemma_encode_decode_round_trip(reference.drop_last(), target.drop_last());
        lemma_encode_chunk(reference.drop_last(), target.drop_last(), i);
        assert(encode_spec(reference, target).subrange(8 * i, 8 * i + 8) =~= encode_spec(
            reference.drop_last(),
            target.drop_last(),
        ).subrange(8 * i, 8 * i + 8));
        assert(reference.drop_last()[i] == reference[i]);
        assert(target.drop_last()[i] == target[i]);
    }
}

/// Read one little-endian `u64` at `*offset` and advance the offset.
pub fn read_u64_at(bytes: &Vec<u8>, offset: &mut usize) -> (r: u64)
    requires
        *old(offset) + 8 <= bytes@.len(),
    ensures
        *final(offset) == *old(offset) + 8,
        r == spec_u64_from_le_bytes(bytes@.subrange(*old(offset) as int, *old(offset) + 8)),
{
    let mut chunk: Vec<u8> = Vec::new();
    let blen = bytes.len();
    let start = *offset;
    let mut w: usize = 0;
    while w < 8
        invariant
            w <= 8,
            start + 8 <= bytes@.len(),
            bytes@.len() == blen,
            chunk@ == bytes@.subrange(start as int, start as int + w as int),
        decreases 8 - w,
    {
        chunk.push(bytes[start + w]);
        proof {
            assert(chunk@ =~= bytes@.subrange(start as int, start as int + w as int + 1));
        }
        w = w + 1;
    }
    *offset = start + 8;
    u64_from_le_bytes(chunk.as_slice())
}


/// How a value is rebuilt from bytes against a reference value.
pub trait Decodable: Sized {
    /// The value lies within the codec's bounds.
    spec fn wf_value(&self) -> bool;

    /// Whether `bytes` is a well-formed encoding against `reference`.
    spec fn valid_encoding(reference: Self, bytes: Seq<u8>) -> bool;

    /// Whether `r` is the value that `bytes` decodes to against
    /// `reference`.
    spec fn decodes_to(reference: Self, bytes: Seq<u8>, r: Self) -> bool;

    /// Decode a value from its encoding against `reference`.
    fn decode(reference: &Self, bytes: &Vec<u8>) -> (r: Self)
        requires
            reference.wf_value(),
            Self::valid_encoding(*reference, bytes@),
        ensures
            Self::decodes_to(*reference, bytes@, r),
    ;

    /// Decode a standalone value from bytes, leniently.
    fn from_bytes(bytes: &Vec<u8>) -> Self;
}

impl Decodable for Vec<i64> {
    open spec fn wf_value(&self) -> bool {
        bounded_item(self@)
    }

    open spec fn valid_encoding(reference: Self, bytes: Seq<u8>) -> bool {
        &&& bytes.len() == 8 * reference@.len()
        &&& forall|i: int|
            0 <= i < reference@.len() ==> spec_u64_from_le_bytes(
                #[trigger] bytes.subrange(8 * i, 8 * i + 8),
            ) <= 2 * (DELTA_BIAS as int)
    }

    open spec fn decodes_to(reference: Self, bytes: Seq<u8>, r: Self) -> bool {
        r@ == decode_spec(reference@, bytes, reference@.len())
    }

    fn decode(reference: &Self, bytes: &Vec<u8>) -> (r: Self) {
        decode_item(reference, bytes)
    }

    fn from_bytes(bytes: &Vec<u8>) -> Self {
        // Standalone values are encoded against the origin; out-of-range
        // chunks are clamped rather than refused.
        let blen = bytes.len();
        let mut out: Vec<i64> = Vec::new();
        let mut pos: usize = 0;
        while pos < blen && blen - pos >= 8
            invariant
                pos <= blen,
                blen == bytes@.len(),
            decreases blen - pos,
        {
            let mut chunk: Vec<u8> = Vec::new();
            let mut w: usize = 0;
            while w < 8
                invariant
                    w <= 8,
                    pos + 8 <= blen,
                    blen == bytes@.len(),
                    chunk@.len() == w,
                decreases 8 - w,
            {
                chunk.push(bytes[pos + w]);
                w = w + 1;
            }
            let raw = vstd::bytes::u64_from_le_bytes(chunk.as_slice());
            let clamped = if raw > 2 * (DELTA_BIAS as u64) {
                2 * (DELTA_BIAS as u64)
            } else {
                raw
            };
            out.push((clamped as i64) - DELTA_BIAS);
            pos = pos + 8;
        }
        out
    }
}

} // verus!
