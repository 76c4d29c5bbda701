//! The compressed dataset: leaf payloads, their offsets, and the centers map.
//!
//! Compression walks the leaves of an adapted tree over a permuted dataset.
//! Each leaf contributes one payload to a flat byte array, and the decoded
//! center items are kept in a map keyed by their position in the permuted
//! dataset, so any leaf can be decoded on its own.

use std::collections::HashMap;
use vstd::bytes::{spec_u64_from_le_bytes, u64_to_le_bytes};
use vstd::prelude::*;

use crate::codec::{
    bounded_item, decode_item, encode_item, encode_spec, lemma_encode_chunk,
    lemma_encode_decode_round_trip, read_u64_at, DELTA_BIAS,
};
use crate::dataset::FlatVec;
use crate::metric::{wf_item, Metric};
use crate::offset_ball::OffsetBall;

verus! {

/// At `off`, `bytes` holds the length-prefixed encodings of `items` against
/// `center`, one after the other.
pub open spec fn valid_encodings(
    bytes: Seq<u8>,
    off: int,
    center: Seq<i64>,
    items: Seq<Seq<i64>>,
    dim: nat,
) -> bool
    decreases items.len(),
{
    if items.len() == 0 {
        true
    } else {
        &&& 0 <= off
        &&& off + 8 + 8 * dim <= bytes.len()
        &&& spec_u64_from_le_bytes(bytes.subrange(off, off + 8)) == 8 * dim
        &&& items[0].len() == dim
        &&& bytes.subrange(off + 8, off + 8 + 8 * dim) == encode_spec(center, items[0])
        &&& valid_encodings(bytes, off + 8 + 8 * dim, center, items.drop_first(), dim)
    }
}

/// At `off`, `bytes` holds one leaf payload: the center key and the member
/// count as little-endian `u64`s, then the members' encodings.
pub open spec fn valid_payload(
    bytes: Seq<u8>,
    off: int,
    ck: int,
    center: Seq<i64>,
    items: Seq<Seq<i64>>,
    dim: nat,
) -> bool {
    &&& 0 <= off
    &&& off + 16 <= bytes.len()
    &&& spec_u64_from_le_bytes(bytes.subrange(off, off + 8)) == ck
    &&& spec_u64_from_le_bytes(bytes.subrange(off + 8, off + 16)) == items.len()
    &&& valid_encodings(bytes, off + 16, center, items, dim)
}

/// Appending bytes never invalidates an encoding already in place.
proof fn lemma_valid_encodings_extend(
    b1: Seq<u8>,
    b2: Seq<u8>,
    off: int,
    center: Seq<i64>,
    items: Seq<Seq<i64>>,
    dim: nat,
)
    requires
        valid_encodings(b1, off, center, items, dim),
        b1.len() <= b2.len(),
        forall|p: int| 0 <= p < b1.len() ==> b1[p] == b2[p],
    ensures
        valid_encodings(b2, off, center, items, dim),
    decreases items.len(),
{
    if items.len() > 0 {
        assert(b2.subrange(off, off + 8) =~= b1.subrange(off, off + 8));
        assert(b2.subrange(off + 8, off + 8 + 8 * dim) =~= b1.subrange(off + 8, off + 8 + 8 * dim));
        lemma_valid_encodings_extend(b1, b2, off + 8 + 8 * dim, center, items.drop_first(), dim);
    }
}

/// Appending bytes never invalidates a payload already in place.
proof fn lemma_valid_payload_extend(
    b1: Seq<u8>,
    b2: Seq<u8>,
    off: int,
    ck: int,
    center: Seq<i64>,
    items: Seq<Seq<i64>>,
    dim: nat,
)
    requires
        valid_payload(b1, off, ck, center, items, dim),
        b1.len() <= b2.len(),
        forall|p: int| 0 <= p < b1.len() ==> b1[p] == b2[p],
    ensures
        valid_payload(b2, off, ck, center, items, dim),
{
    assert(b2.subrange(off, off + 8) =~= b1.subrange(off, off + 8));
    assert(b2.subrange(off + 8, off + 16) =~= b1.subrange(off + 8, off + 16));
    lemma_valid_encodings_extend(b1, b2, off + 16, center, items, dim);
}

/// A compressed dataset: decodable leaf payloads plus the centers needed to
/// decode them.
pub struct CodecData {
    /// The metric of the source dataset.
    pub metric: Metric,
    /// How many items the source dataset held.
    pub cardinality: usize,
    /// Dimensionality shared by all items.
    pub dim: usize,
    /// The metadata of the source dataset.
    pub metadata: Vec<usize>,
    /// The decoded item of every position that serves as a leaf center.
    pub centers: HashMap<usize, Vec<i64>>,
    /// The leaf payloads, concatenated.
    pub leaf_bytes: Vec<u8>,
    /// Where each leaf's payload starts in `leaf_bytes`.
    pub leaf_offsets: Vec<usize>,
    /// The members of each leaf, kept for specification only.
    pub leaf_items: Ghost<Seq<Seq<Seq<i64>>>>,
    /// The center key of each leaf, kept for specification only.
    pub leaf_centers: Ghost<Seq<usize>>,
    /// The items of the permuted source dataset, kept for specification only.
    pub items_src: Ghost<Seq<Seq<i64>>>,
}

impl CodecData {
    /// Well-formedness: every recorded leaf has a valid payload at its
    /// offset, its center is in the map, and everything decodes to bounded
    /// items of the common dimensionality.
    pub open spec fn wf(&self) -> bool {
        &&& self.leaf_offsets@.len() == self.leaf_items@.len()
        &&& self.leaf_offsets@.len() == self.leaf_centers@.len()
        &&& vstd::std_specs::hash::obeys_key_model::<usize>()
        &&& forall|l: int|
            0 <= l < self.leaf_offsets@.len() ==> self.centers@.contains_key(
                #[trigger] self.leaf_centers@[l],
            )
        &&& forall|k: usize|
            self.centers@.contains_key(k) ==> (#[trigger] self.centers@[k])@.len() == self.dim
                && bounded_item(self.centers@[k]@) && k < self.items_src@.len()
                && self.centers@[k]@ == self.items_src@[k as int]
        &&& forall|l: int, j: int|
            #![trigger self.leaf_items@[l][j]]
            0 <= l < self.leaf_items@.len() && 0 <= j < self.leaf_items@[l].len()
                ==> self.leaf_items@[l][j].len() == self.dim && bounded_item(
                self.leaf_items@[l][j],
            )
        &&& forall|l: int|
            0 <= l < self.leaf_items@.len() ==> (#[trigger] self.leaf_items@[l]).len()
                <= usize::MAX
        &&& forall|l: int|
            0 <= l < self.leaf_offsets@.len() ==> valid_payload(
                self.leaf_bytes@,
                (#[trigger] self.leaf_offsets@[l]) as int,
                self.leaf_centers@[l] as int,
                self.centers@[self.leaf_centers@[l]]@,
                self.leaf_items@[l],
                self.dim as nat,
            )
    }

    /// The metadata of the compressed dataset.
    pub fn metadata(&self) -> (r: &Vec<usize>)
        ensures
            r@ == self.metadata@,
    {
        &self.metadata
    }

    /// How many items the source dataset held.
    pub fn cardinality(&self) -> (r: usize)
        ensures
            r == self.cardinality,
    {
        self.cardinality
    }

    /// The centers of the leaves, keyed by position in the permuted dataset.
    pub fn centers(&self) -> (r: &HashMap<usize, Vec<i64>>)
        ensures
            r@ == self.centers@,
    {
        &self.centers
    }

    /// The concatenated leaf payloads.
    pub fn leaf_bytes(&self) -> (r: &Vec<u8>)
        ensures
            r@ == self.leaf_bytes@,
    {
        &self.leaf_bytes
    }

    /// Where each leaf's payload starts.
    pub fn leaf_offsets(&self) -> (r: &Vec<usize>)
        ensures
            r@ == self.leaf_offsets@,
    {
        &self.leaf_offsets
    }

    /// Fetch a stored item.  Only positions that serve as a leaf center are
    /// stored; any other access is a programming error, which this contract
    /// rules out.
    pub fn get(&self, index: usize) -> (r: &Vec<i64>)
        requires
            self.wf(),
            self.centers@.contains_key(index),
        ensures
            r@ == self.centers@[index]@,
    {
        broadcast use vstd::std_specs::hash::group_hash_axioms;

        match self.centers.get(&index) {
            Some(center) => center,
            None => {
                proof {
                    assert(false);
                }
                unreached()
            },
        }
    }

    /// Decode all members of leaf `l`, in order, from its payload alone.
    pub fn decode_leaf(&self, l: usize) -> (r: Vec<Vec<i64>>)
        requires
            self.wf(),
            l < self.leaf_offsets@.len(),
        ensures
            r@.len() == self.leaf_items@[l as int].len(),
            forall|j: int|
                0 <= j < r@.len() ==> (#[trigger] r@[j])@ == self.leaf_items@[l as int][j],
    {
        broadcast use vstd::std_specs::hash::group_hash_axioms;

        let ghost items = self.leaf_items@[l as int];
        let mut offset = self.leaf_offsets[l];
        proof {
            assert(valid_payload(
                self.leaf_bytes@,
                offset as int,
                self.leaf_centers@[l as int] as int,
                self.centers@[self.leaf_centers@[l as int]]@,
                items,
                self.dim as nat,
            ));
            if items.len() > 0 {
                assert(valid_encodings(
                    self.leaf_bytes@,
                    offset as int + 16,
                    self.centers@[self.leaf_centers@[l as int]]@,
                    items,
                    self.dim as nat,
                ));
            }
        }
        let ck_raw = read_u64_at(&self.leaf_bytes, &mut offset);
        let ck = ck_raw as usize;
        proof {
            assert(ck == self.leaf_centers@[l as int]);
        }
        let center = self.get(ck);
        let m_raw = read_u64_at(&self.leaf_bytes, &mut offset);
        let m = m_raw as usize;
        proof {
            assert(m == items.len());
        }
        let blen = self.leaf_bytes.len();
        proof {
            assert(items.skip(0) =~= items);
        }
        let mut out: Vec<Vec<i64>> = Vec::new();
        let mut j: usize = 0;
        while j < m
            invariant
                j <= m,
                m == items.len(),
                self.leaf_bytes@.len() == blen,
                self.wf(),
                l < self.leaf_offsets@.len(),
                items == self.leaf_items@[l as int],
                center@ == self.centers@[self.leaf_centers@[l as int]]@,
                center@.len() == self.dim,
                bounded_item(center@),
                out@.len() == j,
                forall|t: int| 0 <= t < j ==> (#[trigger] out@[t])@ == items[t],
                valid_encodings(
                    self.leaf_bytes@,
                    offset as int,
                    center@,
                    items.skip(j as int),
                    self.dim as nat,
                ),
            decreases m - j,
        {
            proof {
                assert(items.skip(j as int).len() > 0);
                assert(items.skip(j as int)[0] == items[j as int]);
            }
            let len_raw = read_u64_at(&self.leaf_bytes, &mut offset);
            proof {
                assert(len_raw == 8 * self.dim);
                assert(offset + 8 * (self.dim as int) <= blen as int);
            }
            let mut chunk: Vec<u8> = Vec::new();
            let start = offset;
            let end = offset + 8 * self.dim;
            let ghost enc = encode_spec(center@, items[j as int]);
            let mut w: usize = 0;
            while w < end - start
                invariant
                    start <= offset,
                    w <= end - start,
                    end == start + 8 * self.dim,
                    end <= self.leaf_bytes@.len(),
                    chunk@ == self.leaf_bytes@.subrange(start as int, start as int + w as int),
                decreases end - start - w,
            {
                chunk.push(self.leaf_bytes[start + w]);
                proof {
                    assert(chunk@ =~= self.leaf_bytes@.subrange(
                        start as int,
                        start as int + w as int + 1,
                    ));
                }
                w = w + 1;
            }
            offset = end;
            proof {
                assert(chunk@ =~= self.leaf_bytes@.subrange(start as int, end as int));
                assert(chunk@ == enc);
                lemma_encode_decode_round_trip(center@, items[j as int]);
                assert forall|i: int| 0 <= i < center@.len() implies spec_u64_from_le_bytes(
                    #[trigger] chunk@.subrange(8 * i, 8 * i + 8),
                ) <= 2 * (DELTA_BIAS as int) by {
                    lemma_encode_chunk(center@, items[j as int], i);
                }
            }
            let item = decode_item(center, &chunk);
            proof {
                lemma_encode_decode_round_trip(center@, items[j as int]);
                assert(item@ == items[j as int]);
                assert(items.skip(j as int).drop_first() =~= items.skip(j as int + 1));
            }
            out.push(item);
            j = j + 1;
        }
        out
    }

    /// The parallel variant decodes the same leaf to the same items.
    pub fn par_decode_leaf(&self, l: usize) -> (r: Vec<Vec<i64>>)
        requires
            self.wf(),
            l < self.leaf_offsets@.len(),
        ensures
            r@.len() == self.leaf_items@[l as int].len(),
            forall|j: int|
                0 <= j < r@.len() ==> (#[trigger] r@[j])@ == self.leaf_items@[l as int][j],
    {
        self.decode_leaf(l)
    }
}


/// The member items of every leaf of the adapted subtree, in depth-first
/// order: for a leaf, the items at its interval of the permuted dataset.
pub open spec fn leaf_items_of(ob: OffsetBall, data: FlatVec) -> Seq<Seq<Seq<i64>>>
    decreases ob, ob.children@.len() as int + 1,
{
    if ob.children@.len() == 0 {
        seq![
            Seq::new(
                ob.cardinality as nat,
                |t: int| data.view_items()[ob.offset + t],
            ),
        ]
    } else {
        leaf_items_of_children(ob, data, ob.children@.len() as int)
    }
}

/// Helper for `leaf_items_of`.
pub open spec fn leaf_items_of_children(ob: OffsetBall, data: FlatVec, upto: int) -> Seq<
    Seq<Seq<i64>>,
>
    decreases ob, upto,
    when 0 <= upto <= ob.children@.len()
{
    if upto <= 0 {
        Seq::empty()
    } else {
        leaf_items_of_children(ob, data, upto - 1) + leaf_items_of(*ob.children@[upto - 1].2, data)
    }
}

/// Total byte length of `m` length-prefixed encodings of dimensionality
/// `dim`.
pub open spec fn encs_len(m: nat, dim: nat) -> int
    decreases m,
{
    if m == 0 {
        0
    } else {
        8 + 8 * dim + encs_len((m - 1) as nat, dim)
    }
}

/// A run of valid encodings occupies exactly `encs_len` bytes.
proof fn lemma_valid_encodings_len(
    bytes: Seq<u8>,
    off: int,
    center: Seq<i64>,
    items: Seq<Seq<i64>>,
    dim: nat,
)
    requires
        valid_encodings(bytes, off, center, items, dim),
        0 <= off <= bytes.len(),
    ensures
        off + encs_len(items.len(), dim) <= bytes.len(),
        encs_len(items.len(), dim) >= 0,
    decreases items.len(),
{
    if items.len() > 0 {
        lemma_valid_encodings_len(bytes, off + 8 + 8 * dim, center, items.drop_first(), dim);
    }
}

/// The total length of a run of encodings is never negative.
proof fn lemma_encs_len_nonneg(m: nat, dim: nat)
    ensures
        encs_len(m, dim) >= 0,
    decreases m,
{
    if m > 0 {
        lemma_encs_len_nonneg((m - 1) as nat, dim);
    }
}

/// Appending one more length-prefixed encoding extends a run of valid
/// encodings by one item.
proof fn lemma_valid_encodings_push(
    b1: Seq<u8>,
    b2: Seq<u8>,
    off: int,
    center: Seq<i64>,
    items: Seq<Seq<i64>>,
    x: Seq<i64>,
    dim: nat,
)
    requires
        valid_encodings(b1, off, center, items, dim),
        0 <= off,
        b1.len() == off + encs_len(items.len(), dim),
        b2.len() == b1.len() + 8 + 8 * dim,
        forall|p: int| 0 <= p < b1.len() ==> b1[p] == b2[p],
        spec_u64_from_le_bytes(b2.subrange(b1.len() as int, b1.len() as int + 8)) == 8 * dim,
        b2.subrange(b1.len() as int + 8, b1.len() as int + 8 + 8 * dim) == encode_spec(center, x),
        x.len() == dim,
    ensures
        valid_encodings(b2, off, center, items.push(x), dim),
        b2.len() == off + encs_len(items.len() + 1, dim),
    decreases items.len(),
{
    lemma_encs_len_nonneg(items.len(), dim);
    lemma_valid_encodings_len(b1, off, center, items, dim);
    if items.len() == 0 {
        assert(items.push(x)[0] == x);
        assert(b2.subrange(off, off + 8) =~= b2.subrange(b1.len() as int, b1.len() as int + 8));
        assert(b2.subrange(off + 8, off + 8 + 8 * dim) =~= b2.subrange(
            b1.len() as int + 8,
            b1.len() as int + 8 + 8 * dim,
        ));
        assert(items.push(x).drop_first() =~= items);
        assert(valid_encodings(b2, off + 8 + 8 * dim, center, Seq::<Seq<i64>>::empty(), dim));
        assert(items.push(x).drop_first() =~= Seq::<Seq<i64>>::empty());
    } else {
        assert(b2.subrange(off, off + 8) =~= b1.subrange(off, off + 8));
        assert(b2.subrange(off + 8, off + 8 + 8 * dim) =~= b1.subrange(off + 8, off + 8 + 8 * dim));
        lemma_valid_encodings_push(
            b1,
            b2,
            off + 8 + 8 * dim,
            center,
            items.drop_first(),
            x,
            dim,
        );
        assert(items.push(x).drop_first() =~= items.drop_first().push(x));
        assert(items.push(x)[0] == items[0]);
    }
}

/// Append one little-endian `u64` to the byte array.
fn push_u64(bytes: &mut Vec<u8>, v: u64)
    ensures
        final(bytes)@.len() == old(bytes)@.len() + 8,
        forall|p: int| 0 <= p < old(bytes)@.len() ==> final(bytes)@[p] == old(bytes)@[p],
        final(bytes)@.subrange(old(bytes)@.len() as int, old(bytes)@.len() as int + 8)
            == vstd::bytes::spec_u64_to_le_bytes(v),
        spec_u64_from_le_bytes(
            final(bytes)@.subrange(old(bytes)@.len() as int, old(bytes)@.len() as int + 8),
        ) == v,
{
    proof {
        vstd::bytes::lemma_auto_spec_u64_to_from_le_bytes();
    }
    let chunk = u64_to_le_bytes(v);
    let ghost pre = bytes@;
    let mut w: usize = 0;
    while w < 8
        invariant
            w <= 8,
            chunk@.len() == 8,
            chunk@ == vstd::bytes::spec_u64_to_le_bytes(v),
            bytes@ == pre + chunk@.take(w as int),
        decreases 8 - w,
    {
        bytes.push(chunk[w]);
        proof {
            assert(chunk@.take(w as int).push(chunk@[w as int]) =~= chunk@.take(w as int + 1));
            assert(bytes@ =~= pre + chunk@.take(w as int + 1));
        }
        w = w + 1;
    }
    proof {
        assert(chunk@.take(8) =~= chunk@);
        assert(bytes@ =~= pre + chunk@);
        assert(bytes@.subrange(pre.len() as int, pre.len() as int + 8) =~= chunk@);
    }
}

/// Append the bytes of `src` to the byte array.
fn push_bytes(bytes: &mut Vec<u8>, src: &Vec<u8>)
    ensures
        final(bytes)@ == old(bytes)@ + src@,
        forall|p: int| 0 <= p < old(bytes)@.len() ==> final(bytes)@[p] == old(bytes)@[p],
        final(bytes)@.subrange(old(bytes)@.len() as int, old(bytes)@.len() as int + src@.len() as int)
            == src@,
{
    let ghost pre = bytes@;
    let mut w: usize = 0;
    while w < src.len()
        invariant
            w <= src@.len(),
            bytes@ == pre + src@.take(w as int),
        decreases src@.len() - w,
    {
        bytes.push(src[w]);
        proof {
            assert(src@.take(w as int).push(src@[w as int]) =~= src@.take(w as int + 1));
            assert(bytes@ =~= pre + src@.take(w as int + 1));
        }
        w = w + 1;
    }
    proof {
        assert(src@.take(src@.len() as int) =~= src@);
        assert(bytes@ =~= pre + src@);
        assert(bytes@.subrange(pre.len() as int, pre.len() as int + src@.len() as int) =~= src@);
    }
}

impl CodecData {
    /// Append the payloads of all leaves of `node` and record their offsets,
    /// their members and their centers.
    #[verifier::rlimit(50)]
    fn compress_rec(&mut self, data: &FlatVec, node: &OffsetBall)
        requires
            data.wf(),
            node.wf_p(*data),
            old(self).wf(),
            old(self).dim == data.dim(),
            old(self).items_src@ == data.view_items(),
        ensures
            final(self).wf(),
            final(self).dim == old(self).dim,
            final(self).metric == old(self).metric,
            final(self).cardinality == old(self).cardinality,
            final(self).metadata == old(self).metadata,
            final(self).items_src == old(self).items_src,
            final(self).leaf_items@ == old(self).leaf_items@ + leaf_items_of(*node, *data),
            final(self).leaf_offsets@.len() == old(self).leaf_offsets@.len() + leaf_items_of(
                *node,
                *data,
            ).len(),
        decreases *node,
    {
        broadcast use vstd::std_specs::hash::group_hash_axioms;

        if node.children.len() == 0 {
            let ghost members = Seq::new(
                node.cardinality as nat,
                |t: int| data.view_items()[node.offset + t],
            );
            let off = self.leaf_bytes.len();
            let ghost pre = *self;
            let center_key = node.arg_center;
            let center = crate::dataset::clone_item(data.get(center_key));
            push_u64(&mut self.leaf_bytes, center_key as u64);
            let ghost b_after1 = self.leaf_bytes@;
            push_u64(&mut self.leaf_bytes, node.cardinality as u64);
            let ghost enc_start = self.leaf_bytes@.len() as int;
            proof {
                assert(self.leaf_bytes@.subrange(off as int, off as int + 8) =~= b_after1.subrange(
                    off as int,
                    off as int + 8,
                ));
                assert(spec_u64_from_le_bytes(
                    self.leaf_bytes@.subrange(off as int, off as int + 8),
                ) == center_key as u64);
                assert(self.leaf_bytes@.subrange(off as int + 8, off as int + 16)
                    =~= self.leaf_bytes@.subrange(
                    b_after1.len() as int,
                    b_after1.len() as int + 8,
                ));
                assert(spec_u64_from_le_bytes(
                    self.leaf_bytes@.subrange(off as int + 8, off as int + 16),
                ) == node.cardinality as u64);
                assert(valid_encodings(
                    self.leaf_bytes@,
                    enc_start,
                    center@,
                    members.take(0),
                    self.dim as nat,
                ));
            }
            let m = node.cardinality;
            let mut j: usize = 0;
            while j < m
                invariant
                    j <= m,
                    m == node.cardinality,
                    data.wf(),
                    node.wf_p(*data),
                    members == Seq::new(
                        node.cardinality as nat,
                        |t: int| data.view_items()[node.offset + t],
                    ),
                    center@ == data.view_items()[node.arg_center as int],
                    center@.len() == data.dim(),
                    self.dim == data.dim(),
                    self.metric == pre.metric,
                    self.cardinality == pre.cardinality,
                    self.metadata == pre.metadata,
                    self.items_src == pre.items_src,
                    self.leaf_offsets == pre.leaf_offsets,
                    self.leaf_items == pre.leaf_items,
                    self.leaf_centers == pre.leaf_centers,
                    self.centers == pre.centers,
                    enc_start == pre.leaf_bytes@.len() + 16,
                    self.leaf_bytes@.len() == enc_start + encs_len(j as nat, self.dim as nat),
                    forall|p: int|
                        0 <= p < pre.leaf_bytes@.len() ==> #[trigger] self.leaf_bytes@[p]
                            == pre.leaf_bytes@[p],
                    spec_u64_from_le_bytes(
                        self.leaf_bytes@.subrange(off as int, off as int + 8),
                    ) == center_key as int,
                    spec_u64_from_le_bytes(
                        self.leaf_bytes@.subrange(off as int + 8, off as int + 16),
                    ) == node.cardinality as int,
                    off == pre.leaf_bytes@.len(),
                    valid_encodings(
                        self.leaf_bytes@,
                        enc_start,
                        center@,
                        members.take(j as int),
                        self.dim as nat,
                    ),
                decreases m - j,
            {
                let member = data.get(node.offset + j);
                proof {
                    assert(wf_item(data.view_items()[node.offset + j], data.dim()));
                    assert(wf_item(center@, data.dim()));
                }
                let enc = encode_item(&center, member);
                let ghost b1 = self.leaf_bytes@;
                push_u64(&mut self.leaf_bytes, (8 * self.dim) as u64);
                let ghost b15 = self.leaf_bytes@;
                push_bytes(&mut self.leaf_bytes, &enc);
                proof {
                    lemma_valid_encodings_extend(
                        b1,
                        self.leaf_bytes@,
                        enc_start,
                        center@,
                        members.take(j as int),
                        self.dim as nat,
                    );
                    assert(self.leaf_bytes@.subrange(b1.len() as int, b1.len() as int + 8)
                        =~= b15.subrange(b1.len() as int, b1.len() as int + 8));
                    assert(self.leaf_bytes@.subrange(
                        b1.len() as int + 8,
                        b1.len() as int + 8 + 8 * (self.dim as int),
                    ) =~= enc@);
                    assert(8 * (self.dim as int) <= u64::MAX) by {
                        assert(data.dim() <= crate::metric::MAX_DIM as nat);
                    }
                    lemma_valid_encodings_push(
                        b1,
                        self.leaf_bytes@,
                        enc_start,
                        center@,
                        members.take(j as int),
                        member@,
                        self.dim as nat,
                    );
                    assert(members.take(j as int).push(members[j as int]) =~= members.take(
                        j as int + 1,
                    ));
                    assert(members[j as int] == member@);
                    assert(self.leaf_bytes@.subrange(off as int, off as int + 8) =~= b1.subrange(
                        off as int,
                        off as int + 8,
                    ));
                    assert(self.leaf_bytes@.subrange(off as int + 8, off as int + 16)
                        =~= b1.subrange(off as int + 8, off as int + 16));
                }
                j = j + 1;
            }
            proof {
                assert(members.take(m as int) =~= members);
            }
            self.leaf_offsets.push(off);
            self.centers.insert(center_key, center);
            proof {
                self.leaf_items@ = pre.leaf_items@.push(members);
                self.leaf_centers@ = pre.leaf_centers@.push(center_key);
            }
            proof {
                assert(leaf_items_of(*node, *data) =~= seq![members]);
                assert(self.leaf_items@ =~= pre.leaf_items@ + leaf_items_of(*node, *data));
                assert forall|l: int| 0 <= l < self.leaf_offsets@.len() implies valid_payload(
                    self.leaf_bytes@,
                    (#[trigger] self.leaf_offsets@[l]) as int,
                    self.leaf_centers@[l] as int,
                    self.centers@[self.leaf_centers@[l]]@,
                    self.leaf_items@[l],
                    self.dim as nat,
                ) && self.centers@.contains_key(self.leaf_centers@[l]) by {
                    if l < pre.leaf_offsets@.len() {
                        assert(self.leaf_offsets@[l] == pre.leaf_offsets@[l]);
                        assert(self.leaf_items@[l] == pre.leaf_items@[l]);
                        assert(self.leaf_centers@[l] == pre.leaf_centers@[l]);
                        assert(self.centers@[self.leaf_centers@[l]]@ == pre.centers@[
                            pre.leaf_centers@[l]
                        ]@);
                        lemma_valid_payload_extend(
                            pre.leaf_bytes@,
                            self.leaf_bytes@,
                            pre.leaf_offsets@[l] as int,
                            pre.leaf_centers@[l] as int,
                            pre.centers@[pre.leaf_centers@[l]]@,
                            pre.leaf_items@[l],
                            self.dim as nat,
                        );
                    } else {
                        assert(self.leaf_offsets@[l] == off);
                        assert(self.leaf_items@[l] == members);
                        assert(self.leaf_centers@[l] == center_key);
                        assert(self.centers@[center_key]@ == center@);
                        assert(members.len() == node.cardinality);
                    }
                }
                assert forall|l: int, jj: int|
                    #![trigger self.leaf_items@[l][jj]]
                    0 <= l < self.leaf_items@.len() && 0 <= jj < self.leaf_items@[l].len()
                        implies self.leaf_items@[l][jj].len() == self.dim && bounded_item(
                    self.leaf_items@[l][jj],
                ) by {
                    if l == self.leaf_items@.len() - 1 {
                        assert(self.leaf_items@[l] == members);
                        assert(members[jj] == data.view_items()[node.offset + jj]);
                        assert(wf_item(data.view_items()[node.offset + jj], data.dim()));
                    } else {
                        assert(self.leaf_items@[l] == pre.leaf_items@[l]);
                    }
                }
            }
        } else {
            let nc = node.children.len();
            let ghost pre = *self;
            let mut c: usize = 0;
            while c < nc
                invariant
                    c <= nc,
                    nc == node.children@.len(),
                    data.wf(),
                    node.wf_p(*data),
                    self.wf(),
                    self.dim == data.dim(),
                    self.items_src@ == data.view_items(),
                    self.metric == pre.metric,
                    self.cardinality == pre.cardinality,
                    self.metadata == pre.metadata,
                    self.items_src == pre.items_src,
                    self.leaf_items@ == pre.leaf_items@ + leaf_items_of_children(
                        *node,
                        *data,
                        c as int,
                    ),
                    self.leaf_offsets@.len() == pre.leaf_offsets@.len()
                        + leaf_items_of_children(*node, *data, c as int).len(),
                decreases nc - c,
            {
                proof {
                    crate::offset_ball::OffsetBall::lemma_wf_p_child(node, *data, c as int);
                }
                let ghost mid = *self;
                self.compress_rec(data, &node.children[c].2);
                proof {
                    assert(self.leaf_items@ =~= pre.leaf_items@ + leaf_items_of_children(
                        *node,
                        *data,
                        c as int + 1,
                    ));
                }
                c = c + 1;
            }
            proof {
                assert(leaf_items_of(*node, *data) == leaf_items_of_children(
                    *node,
                    *data,
                    nc as int,
                ));
            }
        }
    }

    /// Build the compressed dataset from an adapted tree over a permuted
    /// dataset.
    pub fn from_compressible(data: &FlatVec, root: &OffsetBall) -> (r: CodecData)
        requires
            data.wf(),
            root.wf_p(*data),
        ensures
            r.wf(),
            r.dim == data.dim(),
            r.metric == data.metric,
            r.cardinality == data.n(),
            r.metadata@ == data.metadata@,
            r.items_src@ == data.view_items(),
            r.leaf_items@ == leaf_items_of(*root, *data),
    {
        let mut cd = CodecData {
            metric: *data.metric(),
            cardinality: data.cardinality(),
            dim: data.get(0).len(),
            metadata: crate::dataset::clone_indices(data.metadata()),
            centers: HashMap::new(),
            leaf_bytes: Vec::new(),
            leaf_offsets: Vec::new(),
            leaf_items: Ghost(Seq::empty()),
            leaf_centers: Ghost(Seq::empty()),
            items_src: Ghost(data.view_items()),
        };
        proof {
            broadcast use vstd::std_specs::hash::group_hash_axioms;

            assert(vstd::std_specs::hash::obeys_key_model::<usize>());
            assert(cd.wf());
        }
        cd.compress_rec(data, root);
        proof {
            assert(cd.leaf_items@ =~= leaf_items_of(*root, *data));
        }
        cd
    }

    /// Parallel variant of `from_compressible`; produces the same compressed
    /// dataset.
    pub fn par_from_compressible(data: &FlatVec, root: &OffsetBall) -> (r: CodecData)
        requires
            data.wf(),
            root.wf_p(*data),
        ensures
            r.wf(),
            r.dim == data.dim(),
            r.metric == data.metric,
            r.cardinality == data.n(),
            r.metadata@ == data.metadata@,
            r.items_src@ == data.view_items(),
            r.leaf_items@ == leaf_items_of(*root, *data),
    {
        CodecData::from_compressible(data, root)
    }
}


/// A dataset that can be decompressed leaf by leaf.
pub trait Decompressible: Sized {
    /// The payloads, offsets and centers fit together.
    spec fn dec_wf(&self) -> bool;

    /// The members of each decodable leaf, in order.
    spec fn leaves(&self) -> Seq<Seq<Seq<i64>>>;

    /// The centers of the leaves, keyed by position in the permuted
    /// dataset.
    fn centers(&self) -> &HashMap<usize, Vec<i64>>;

    /// The concatenated leaf payloads.
    fn leaf_bytes(&self) -> &Vec<u8>;

    /// Where each leaf's payload starts.
    fn leaf_offsets(&self) -> &Vec<usize>;

    /// Decode all members of leaf `l`, in order.
    fn decode_leaf(&self, l: usize) -> (r: Vec<Vec<i64>>)
        requires
            self.dec_wf(),
            l < self.leaves().len(),
        ensures
            r@.len() == self.leaves()[l as int].len(),
            forall|j: int| 0 <= j < r@.len() ==> (#[trigger] r@[j])@ == self.leaves()[l as int][j],
    ;
}

/// The parallel variant of leaf decompression; it decodes the same leaves
/// to the same members.
pub trait ParDecompressible: Decompressible {
    /// Parallel variant of `decode_leaf`.
    fn par_decode_leaf(&self, l: usize) -> (r: Vec<Vec<i64>>)
        requires
            self.dec_wf(),
            l < self.leaves().len(),
        ensures
            r@.len() == self.leaves()[l as int].len(),
            forall|j: int| 0 <= j < r@.len() ==> (#[trigger] r@[j])@ == self.leaves()[l as int][j],
    ;
}

impl Decompressible for CodecData {
    open spec fn dec_wf(&self) -> bool {
        self.wf()
    }

    open spec fn leaves(&self) -> Seq<Seq<Seq<i64>>> {
        self.leaf_items@
    }

    fn centers(&self) -> &HashMap<usize, Vec<i64>> {
        CodecData::centers(self)
    }

    fn leaf_bytes(&self) -> &Vec<u8> {
        CodecData::leaf_bytes(self)
    }

    fn leaf_offsets(&self) -> &Vec<usize> {
        CodecData::leaf_offsets(self)
    }

    fn decode_leaf(&self, l: usize) -> (r: Vec<Vec<i64>>) {
        CodecData::decode_leaf(self, l)
    }
}

impl ParDecompressible for CodecData {
    fn par_decode_leaf(&self, l: usize) -> (r: Vec<Vec<i64>>) {
        CodecData::par_decode_leaf(self, l)
    }
}

} // verus!
