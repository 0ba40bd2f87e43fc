use vstd::prelude::*;
use crate::model::{DistanceType, IvfModel, ProductQuantizer, deep};

verus! {

/// Format version pair recorded in the trailer.
pub const FORMAT_MAJOR: u32 = 0;

pub const FORMAT_MINOR: u32 = 1;

/// Schema version of the metadata block; future fields are additive.
pub const META_SCHEMA_VERSION: u64 = 1;

/// The index kind recorded in every metadata block, as its ASCII bytes.
pub open spec fn index_kind_name() -> Seq<u8> {
    seq![
        'i' as u8, 'v' as u8, 'f' as u8, '_' as u8, 'p' as u8, 'q' as u8, '_' as u8,
        'i' as u8, 'n' as u8, 'd' as u8, 'e' as u8, 'x' as u8,
    ]
}

/// The fixed four-byte magic constant closing a sealed artifact: `LANC`.
pub open spec fn magic() -> Seq<u8> {
    seq!['L' as u8, 'A' as u8, 'N' as u8, 'C' as u8]
}

/// Little-endian encoding of a `u64`.
pub open spec fn u64_le(v: u64) -> Seq<u8> {
    seq![
        v as u8,
        (v >> 8) as u8,
        (v >> 16) as u8,
        (v >> 24) as u8,
        (v >> 32) as u8,
        (v >> 40) as u8,
        (v >> 48) as u8,
        (v >> 56) as u8,
    ]
}

/// The `u64` read from eight little-endian bytes.
pub open spec fn le_val(b: Seq<u8>) -> u64 {
    (b[0] as u64) | ((b[1] as u64) << 8) | ((b[2] as u64) << 16) | ((b[3] as u64) << 24)
        | ((b[4] as u64) << 32) | ((b[5] as u64) << 40) | ((b[6] as u64) << 48)
        | ((b[7] as u64) << 56)
}

/// Little-endian encoding of a `u32`.
pub open spec fn u32_le(v: u32) -> Seq<u8> {
    seq![v as u8, (v >> 8) as u8, (v >> 16) as u8, (v >> 24) as u8]
}

/// The `u32` read from four little-endian bytes.
pub open spec fn le_val32(b: Seq<u8>) -> u32 {
    (b[0] as u32) | ((b[1] as u32) << 8) | ((b[2] as u32) << 16) | ((b[3] as u32) << 24)
}

/// Little-endian encoding of an `i64`, through its two's-complement bits.
pub open spec fn i64_le(v: i64) -> Seq<u8> {
    u64_le(v as u64)
}

/// Decoding eight little-endian bytes recovers the encoded `u64`.
pub proof fn lemma_u64_le_val(v: u64)
    ensures
        le_val(u64_le(v)) == v,
{
    let b = u64_le(v);
    assert(((v as u8) as u64) | (((v >> 8) as u8 as u64) << 8) | (((v >> 16) as u8 as u64) << 16)
        | (((v >> 24) as u8 as u64) << 24) | (((v >> 32) as u8 as u64) << 32)
        | (((v >> 40) as u8 as u64) << 40) | (((v >> 48) as u8 as u64) << 48)
        | (((v >> 56) as u8 as u64) << 56) == v) by (bit_vector);
}

/// Re-encoding the `u64` read from eight bytes gives back those bytes.
pub proof fn lemma_u64_le_inverse(b: Seq<u8>)
    requires
        b.len() == 8,
    ensures
        u64_le(le_val(b)) == b,
{
    let b0 = b[0];
    let b1 = b[1];
    let b2 = b[2];
    let b3 = b[3];
    let b4 = b[4];
    let b5 = b[5];
    let b6 = b[6];
    let b7 = b[7];
    let v = le_val(b);
    assert(v as u8 == b0 && (v >> 8) as u8 == b1 && (v >> 16) as u8 == b2 && (v >> 24) as u8 == b3
        && (v >> 32) as u8 == b4 && (v >> 40) as u8 == b5 && (v >> 48) as u8 == b6
        && (v >> 56) as u8 == b7) by (bit_vector)
        requires
            v == (b0 as u64) | ((b1 as u64) << 8) | ((b2 as u64) << 16) | ((b3 as u64) << 24)
                | ((b4 as u64) << 32) | ((b5 as u64) << 40) | ((b6 as u64) << 48)
                | ((b7 as u64) << 56);
    assert(u64_le(v) =~= b);
}

/// An `i64` survives the round trip through its `u64` bit pattern.
pub proof fn lemma_i64_bits(v: i64)
    ensures
        (v as u64) as i64 == v,
{
    assert((v as u64) as i64 == v) by (bit_vector);
}

/// A `u64` survives the round trip through its `i64` bit pattern.
pub proof fn lemma_u64_bits(v: u64)
    ensures
        (v as i64) as u64 == v,
{
    assert((v as i64) as u64 == v) by (bit_vector);
}

/// Decoding four little-endian bytes recovers the encoded `u32`.
pub proof fn lemma_u32_le_val(v: u32)
    ensures
        le_val32(u32_le(v)) == v,
{
    assert(((v as u8) as u32) | (((v >> 8) as u8 as u32) << 8) | (((v >> 16) as u8 as u32) << 16)
        | (((v >> 24) as u8 as u32) << 24) == v) by (bit_vector);
}

/// Re-encoding the `u32` read from four bytes gives back those bytes.
pub proof fn lemma_u32_le_inverse(b: Seq<u8>)
    requires
        b.len() == 4,
    ensures
        u32_le(le_val32(b)) == b,
{
    let b0 = b[0];
    let b1 = b[1];
    let b2 = b[2];
    let b3 = b[3];
    let v = le_val32(b);
    assert(v as u8 == b0 && (v >> 8) as u8 == b1 && (v >> 16) as u8 == b2 && (v >> 24) as u8 == b3)
        by (bit_vector)
        requires
            v == (b0 as u32) | ((b1 as u32) << 8) | ((b2 as u32) << 16) | ((b3 as u32) << 24);
    assert(u32_le(v) =~= b);
}

/// Appends the little-endian bytes of `v`.
pub fn push_u64_le(buf: &mut Vec<u8>, v: u64)
    ensures
        final(buf)@ == old(buf)@ + u64_le(v),
{
    buf.push(v as u8);
    buf.push((v >> 8) as u8);
    buf.push((v >> 16) as u8);
    buf.push((v >> 24) as u8);
    buf.push((v >> 32) as u8);
    buf.push((v >> 40) as u8);
    buf.push((v >> 48) as u8);
    buf.push((v >> 56) as u8);
    proof {
        assert(buf@ =~= old(buf)@ + u64_le(v));
    }
}

/// Appends the little-endian bytes of `v`.
pub fn push_u32_le(buf: &mut Vec<u8>, v: u32)
    ensures
        final(buf)@ == old(buf)@ + u32_le(v),
{
    buf.push(v as u8);
    buf.push((v >> 8) as u8);
    buf.push((v >> 16) as u8);
    buf.push((v >> 24) as u8);
    proof {
        assert(buf@ =~= old(buf)@ + u32_le(v));
    }
}

/// Reads the `u64` at byte offset `pos`.
pub fn read_u64_le(bytes: &Vec<u8>, pos: usize) -> (v: u64)
    requires
        pos + 8 <= bytes@.len(),
    ensures
        v == le_val(bytes@.subrange(pos as int, pos as int + 8)),
{
    // pins bytes@.len() within usize, so every index below fits
    let _len: usize = bytes.len();
    let v = (bytes[pos] as u64) | ((bytes[pos + 1] as u64) << 8u64)
        | ((bytes[pos + 2] as u64) << 16u64) | ((bytes[pos + 3] as u64) << 24u64)
        | ((bytes[pos + 4] as u64) << 32u64) | ((bytes[pos + 5] as u64) << 40u64)
        | ((bytes[pos + 6] as u64) << 48u64) | ((bytes[pos + 7] as u64) << 56u64);
    proof {
        let b = bytes@.subrange(pos as int, pos as int + 8);
        assert(b[0] == bytes@[pos as int]);
        assert(b[1] == bytes@[pos as int + 1]);
        assert(b[2] == bytes@[pos as int + 2]);
        assert(b[3] == bytes@[pos as int + 3]);
        assert(b[4] == bytes@[pos as int + 4]);
        assert(b[5] == bytes@[pos as int + 5]);
        assert(b[6] == bytes@[pos as int + 6]);
        assert(b[7] == bytes@[pos as int + 7]);
    }
    v
}

/// Reads the `u32` at byte offset `pos`.
pub fn read_u32_le(bytes: &Vec<u8>, pos: usize) -> (v: u32)
    requires
        pos + 4 <= bytes@.len(),
    ensures
        v == le_val32(bytes@.subrange(pos as int, pos as int + 4)),
{
    // pins bytes@.len() within usize, so every index below fits
    let _len: usize = bytes.len();
    let v = (bytes[pos] as u32) | ((bytes[pos + 1] as u32) << 8u32)
        | ((bytes[pos + 2] as u32) << 16u32) | ((bytes[pos + 3] as u32) << 24u32);
    proof {
        let b = bytes@.subrange(pos as int, pos as int + 4);
        assert(b[0] == bytes@[pos as int]);
        assert(b[1] == bytes@[pos as int + 1]);
        assert(b[2] == bytes@[pos as int + 2]);
        assert(b[3] == bytes@[pos as int + 3]);
    }
    v
}

/// Little-endian encoding of a sequence of `u64`s, in order.
pub open spec fn seq_u64_le(s: Seq<u64>) -> Seq<u8>
    decreases s.len(),
{
    if s.len() == 0 {
        Seq::empty()
    } else {
        seq_u64_le(s.drop_last()) + u64_le(s.last())
    }
}

/// Little-endian encoding of a sequence of `i64`s, in order.
pub open spec fn seq_i64_le(s: Seq<i64>) -> Seq<u8>
    decreases s.len(),
{
    if s.len() == 0 {
        Seq::empty()
    } else {
        seq_i64_le(s.drop_last()) + i64_le(s.last())
    }
}

/// Little-endian encoding of a grid of vectors, row by row.
pub open spec fn grid_le(s: Seq<Seq<i64>>) -> Seq<u8>
    decreases s.len(),
{
    if s.len() == 0 {
        Seq::empty()
    } else {
        grid_le(s.drop_last()) + seq_i64_le(s.last())
    }
}

/// The numeric tag of a distance metric in the metadata block.
pub open spec fn dt_tag(dt: DistanceType) -> u64 {
    match dt {
        DistanceType::L2 => 0,
        DistanceType::Cosine => 1,
        DistanceType::Dot => 2,
    }
}

/// Returns the numeric metadata tag of `dt`.
pub fn dt_tag_of(dt: DistanceType) -> (t: u64)
    ensures
        t == dt_tag(dt),
{
    match dt {
        DistanceType::L2 => 0,
        DistanceType::Cosine => 1,
        DistanceType::Dot => 2,
    }
}

/// The serialized metadata block of a sealed artifact: the schema version,
/// the index kind name, the schema'd header fields, the column name bytes,
/// then the IVF model and the PQ codebook, every number little-endian with a
/// fixed width.
pub open spec fn encode_metadata(
    ivf: IvfModel,
    pq: ProductQuantizer,
    column: Seq<u8>,
    dataset_version: u64,
) -> Seq<u8> {
    u64_le(META_SCHEMA_VERSION) + index_kind_name()
        + u64_le(ivf.dimension as u64) + u64_le(dt_tag(ivf.distance_type))
        + u64_le(ivf.centroids@.len() as u64) + u64_le(pq.num_subvectors as u64)
        + u64_le(pq.num_bits as u64) + u64_le(if pq.residual { 1u64 } else { 0u64 })
        + u64_le(dataset_version) + u64_le(column.len() as u64) + column
        + grid_le(deep(ivf.centroids@)) + seq_u64_le(ivf.offsets@) + seq_u64_le(ivf.lengths@)
        + grid_le(deep(pq.codebook@))
}

/// The fixed-size trailer: the byte offset of the metadata block, the format
/// version pair, and the magic constant.
pub open spec fn trailer_bytes(meta_pos: u64) -> Seq<u8> {
    u64_le(meta_pos) + u32_le(FORMAT_MAJOR) + u32_le(FORMAT_MINOR) + magic()
}

/// The byte length of the trailer.
pub const TRAILER_LEN: usize = 20;

/// Appends the twelve bytes of the index kind name.
pub fn push_index_kind(buf: &mut Vec<u8>)
    ensures
        final(buf)@ == old(buf)@ + index_kind_name(),
{
    buf.push('i' as u8);
    buf.push('v' as u8);
    buf.push('f' as u8);
    buf.push('_' as u8);
    buf.push('p' as u8);
    buf.push('q' as u8);
    buf.push('_' as u8);
    buf.push('i' as u8);
    buf.push('n' as u8);
    buf.push('d' as u8);
    buf.push('e' as u8);
    buf.push('x' as u8);
    proof {
        assert(buf@ =~= old(buf)@ + index_kind_name());
    }
}

/// Tests whether the twelve bytes at `pos` spell the index kind name.
pub fn kind_name_at(bytes: &Vec<u8>, pos: usize) -> (r: bool)
    requires
        pos + 12 <= bytes@.len(),
    ensures
        r <==> bytes@.subrange(pos as int, pos as int + 12) == index_kind_name(),
{
    let mut expect: Vec<u8> = Vec::new();
    expect.push('i' as u8);
    expect.push('v' as u8);
    expect.push('f' as u8);
    expect.push('_' as u8);
    expect.push('p' as u8);
    expect.push('q' as u8);
    expect.push('_' as u8);
    expect.push('i' as u8);
    expect.push('n' as u8);
    expect.push('d' as u8);
    expect.push('e' as u8);
    expect.push('x' as u8);
    proof {
        assert(expect@ =~= index_kind_name());
    }
    // pins bytes@.len() within usize, so every index below fits
    let _len: usize = bytes.len();
    let mut i: usize = 0;
    while i < 12
        invariant
            i <= 12,
            pos + 12 <= bytes@.len() <= usize::MAX,
            expect@ == index_kind_name(),
            expect@.len() == 12,
            forall|q: int| 0 <= q < i ==> bytes@[pos + q] == expect@[q],
        decreases 12 - i,
    {
        if bytes[pos + i] != expect[i] {
            proof {
                let sub = bytes@.subrange(pos as int, pos as int + 12);
                assert(sub[i as int] == bytes@[pos as int + i as int]);
                assert(sub != index_kind_name()) by {
                    if sub == index_kind_name() {
                        assert(sub[i as int] == index_kind_name()[i as int]);
                    }
                }
            }
            return false;
        }
        i = i + 1;
    }
    proof {
        assert(bytes@.subrange(pos as int, pos as int + 12) =~= index_kind_name());
    }
    true
}

/// Appends the little-endian bytes of every entry of `s`.
pub fn push_seq_u64(buf: &mut Vec<u8>, s: &Vec<u64>)
    ensures
        final(buf)@ == old(buf)@ + seq_u64_le(s@),
{
    let mut i: usize = 0;
    while i < s.len()
        invariant
            i <= s@.len(),
            buf@ == old(buf)@ + seq_u64_le(s@.subrange(0, i as int)),
        decreases s@.len() - i,
    {
        push_u64_le(buf, s[i]);
        proof {
            assert(s@.subrange(0, i + 1).drop_last() =~= s@.subrange(0, i as int));
            assert(s@.subrange(0, i + 1).last() == s@[i as int]);
        }
        i = i + 1;
    }
    proof {
        assert(s@.subrange(0, s@.len() as int) =~= s@);
        assert(seq_u64_le(s@.subrange(0, 0)) =~= Seq::<u8>::empty());
    }
}

/// Appends the little-endian bytes of every component of `v`.
pub fn push_seq_i64(buf: &mut Vec<u8>, v: &Vec<i64>)
    ensures
        final(buf)@ == old(buf)@ + seq_i64_le(v@),
{
    let mut i: usize = 0;
    while i < v.len()
        invariant
            i <= v@.len(),
            buf@ == old(buf)@ + seq_i64_le(v@.subrange(0, i as int)),
        decreases v@.len() - i,
    {
        push_u64_le(buf, v[i] as u64);
        proof {
            assert(v@.subrange(0, i + 1).drop_last() =~= v@.subrange(0, i as int));
            assert(v@.subrange(0, i + 1).last() == v@[i as int]);
        }
        i = i + 1;
    }
    proof {
        assert(v@.subrange(0, v@.len() as int) =~= v@);
    }
}

/// Appends the little-endian bytes of every row of `rows`.
pub fn push_grid(buf: &mut Vec<u8>, rows: &Vec<Vec<i64>>)
    ensures
        final(buf)@ == old(buf)@ + grid_le(deep(rows@)),
{
    let mut i: usize = 0;
    while i < rows.len()
        invariant
            i <= rows@.len(),
            buf@ == old(buf)@ + grid_le(deep(rows@).subrange(0, i as int)),
        decreases rows@.len() - i,
    {
        push_seq_i64(buf, &rows[i]);
        proof {
            assert(deep(rows@).subrange(0, i + 1).drop_last()
                =~= deep(rows@).subrange(0, i as int));
            assert(deep(rows@).subrange(0, i + 1).last() == deep(rows@)[i as int]);
            assert(deep(rows@)[i as int] == rows@[i as int]@);
        }
        i = i + 1;
    }
    proof {
        assert(deep(rows@).subrange(0, rows@.len() as int) =~= deep(rows@));
    }
}

} // verus!
