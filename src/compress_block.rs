//! Blocks of 128 values packed two ways: as variable-length integers, and
//! bit-packed by the `bitpacking` crate's four-lane packer.
use crate::delta_bitpack::{bit_width, gaps, increasing_after, lemma_bit_width};
use crate::vint::{decode_vint32, encode_vint32, lemma_vint32_round_trip, vint_bytes};
use bitpacking::BitPacker;
use vstd::prelude::*;

verus! {

/// The bytes of `vals` one after another.
pub open spec fn vints_bytes(vals: Seq<u32>) -> Seq<u8>
    decreases vals.len(),
{
    if vals.len() == 0 {
        seq![]
    } else {
        vints_bytes(vals.drop_last()) + vint_bytes(vals.last() as nat)
    }
}

/// Each value less the one before it (`offset` for the first).
pub open spec fn deltas_from(vals: Seq<u32>, offset: u32) -> Seq<u32> {
    Seq::new(
        vals.len(),
        |i: int|
            (vals[i] - if i == 0 {
                offset
            } else {
                vals[i - 1]
            }) as u32,
    )
}

/// Non-decreasing values, none below `offset`.
pub open spec fn sorted_from(vals: Seq<u32>, offset: u32) -> bool {
    &&& forall|i: int, j: int| 0 <= i < j < vals.len() ==> vals[i] <= vals[j]
    &&& vals.len() > 0 ==> vals[0] >= offset
}

/// Packs blocks of values as variable-length integers.
pub struct BlockEncoder {
    output: Vec<u8>,
}

impl BlockEncoder {
    pub fn new() -> Self {
        Self { output: Vec::new() }
    }

    /// Encodes the gaps of sorted values, the first taken from `offset`.
    pub fn compress_vint_sorted(&mut self, block: &[u32], offset: u32) -> (r: &[u8])
        requires
            sorted_from(block@, offset),
        ensures
            r@ == vints_bytes(deltas_from(block@, offset)),
    {
        let mut d: Vec<u32> = Vec::new();
        let mut i: usize = 0;
        while i < block.len()
            invariant
                sorted_from(block@, offset),
                i <= block@.len(),
                d@ == deltas_from(block@, offset).subrange(0, i as int),
            decreases block@.len() - i,
        {
            let prev = if i == 0 {
                offset
            } else {
                block[i - 1]
            };
            assert(i > 0 ==> block@[i - 1] <= block@[i as int]);
            assert(i == 0 ==> block@[0] >= offset);
            d.push(block[i] - prev);
            i += 1;
            assert(d@ =~= deltas_from(block@, offset).subrange(0, i as int));
        }
        assert(d@ =~= deltas_from(block@, offset));
        self.compress_vint_unsorted(d.as_slice())
    }

    /// Encodes each value.
    pub fn compress_vint_unsorted(&mut self, block: &[u32]) -> (r: &[u8])
        ensures
            r@ == vints_bytes(block@),
    {
        self.output.clear();
        let mut i: usize = 0;
        while i < block.len()
            invariant
                i <= block@.len(),
                self.output@ == vints_bytes(block@.subrange(0, i as int)),
            decreases block@.len() - i,
        {
            encode_vint32(block[i], &mut self.output);
            i += 1;
            assert(block@.subrange(0, i as int).drop_last() =~= block@.subrange(0, i - 1));
        }
        assert(block@.subrange(0, i as int) =~= block@);
        self.output.as_slice()
    }
}

/// Unpacks blocks of values written by `BlockEncoder`.
pub struct BlockDecoder {
    output: Vec<u32>,
}

impl BlockDecoder {
    pub closed spec fn spec_output(&self) -> Seq<u32> {
        self.output@
    }

    pub fn new() -> (r: Self)
        ensures
            r.spec_output().len() == 0,
    {
        Self { output: Vec::new() }
    }

    /// Reads `count` values; returns the number of bytes read.
    pub fn decompress_vint_unsorted(&mut self, block: &[u8], count: u32) -> (r: usize)
        requires
            exists|vals: Seq<u32>, rest: Seq<u8>|
                vals.len() == count && block@ == vints_bytes(vals) + rest,
        ensures
            forall|vals: Seq<u32>, rest: Seq<u8>|
                vals.len() == count && block@ == vints_bytes(vals) + rest ==> final(self).spec_output()
                    == vals && r == vints_bytes(vals).len(),
    {
        let ghost (gv, grest) = choose|vals: Seq<u32>, rest: Seq<u8>|
            vals.len() == count && block@ == vints_bytes(vals) + rest;
        self.output.clear();
        let mut data: &[u8] = block;
        let n = count as usize;
        let mut i: usize = 0;
        assert(gv.subrange(0, gv.len() as int) =~= gv);
        assert(gv.subrange(0, 0) =~= Seq::<u32>::empty());
        assert(vints_bytes(Seq::<u32>::empty()) =~= Seq::<u8>::empty());
        while i < n
            invariant
                n == count,
                n == gv.len(),
                i <= n,
                block@ == vints_bytes(gv) + grest,
                self.output@ == gv.subrange(0, i as int),
                vints_bytes(gv.subrange(0, i as int)) + data@ == block@,
                data@ == vints_tail(gv, i as int) + grest,
            decreases n - i,
        {
            let ghost tail = vints_tail(gv, i + 1) + grest;
            proof {
                lemma_vints_tail_step(gv, i as int);
                assert(data@ =~= vint_bytes(gv[i as int] as nat) + tail);
                lemma_vint32_round_trip(gv[i as int], tail);
            }
            let v = decode_vint32(&mut data);
            self.output.push(v);
            i += 1;
            proof {
                assert(self.output@ =~= gv.subrange(0, i as int));
                lemma_vints_split(gv, i as int);
                lemma_vints_split(gv, i - 1);
                assert(gv.subrange(0, i as int).drop_last() =~= gv.subrange(0, i - 1));
            }
        }
        proof {
            assert(gv.subrange(0, n as int) =~= gv);
            lemma_vints_split(gv, n as int);
            assert forall|vals: Seq<u32>, rest: Seq<u8>|
                vals.len() == count && block@ == vints_bytes(vals) + rest implies self.output@ == vals
                && vints_bytes(gv).len() == vints_bytes(vals).len() by {
                lemma_vints_unique(vals, rest, gv, grest);
            }
        }
        block.len() - data.len()
    }
}

impl BlockDecoder {
    /// Reads `count` gaps of sorted values, the first taken from `offset`,
    /// and rebuilds the values; returns the number of bytes read.
    pub fn decompress_vint_sorted(&mut self, block: &[u8], offset: u32, count: u32) -> (r: usize)
        requires
            exists|vals: Seq<u32>, rest: Seq<u8>|
                vals.len() == count && sorted_from(vals, offset) && block@ == vints_bytes(
                    deltas_from(vals, offset),
                ) + rest,
        ensures
            forall|vals: Seq<u32>, rest: Seq<u8>|
                vals.len() == count && sorted_from(vals, offset) && block@ == vints_bytes(
                    deltas_from(vals, offset),
                ) + rest ==> final(self).spec_output() == vals && r == vints_bytes(
                    deltas_from(vals, offset),
                ).len(),
    {
        let ghost (gv, grest) = choose|vals: Seq<u32>, rest: Seq<u8>|
            vals.len() == count && sorted_from(vals, offset) && block@ == vints_bytes(
                deltas_from(vals, offset),
            ) + rest;
        let ghost gd = deltas_from(gv, offset);
        let r = self.decompress_vint_unsorted(block, count);
        assert(self.output@ == gd);
        let mut acc: u32 = offset;
        let mut i: usize = 0;
        while i < self.output.len()
            invariant
                self.output@.len() == gv.len(),
                gd == deltas_from(gv, offset),
                sorted_from(gv, offset),
                i <= gv.len(),
                forall|j: int| 0 <= j < i ==> self.output@[j] == gv[j],
                forall|j: int| i <= j < gv.len() ==> self.output@[j] == gd[j],
                acc == if i == 0 {
                    offset
                } else {
                    gv[i - 1]
                },
            decreases gv.len() - i,
        {
            assert(i > 0 ==> gv[i - 1] <= gv[i as int]);
            assert(gd[i as int] == (gv[i as int] - acc) as u32);
            assert(0 <= gv[i as int] - acc);
            acc = acc + self.output[i];
            self.output.set(i, acc);
            i += 1;
        }
        proof {
            assert(self.output@ =~= gv);
            assert forall|vals: Seq<u32>, rest: Seq<u8>|
                vals.len() == count && sorted_from(vals, offset) && block@ == vints_bytes(
                    deltas_from(vals, offset),
                ) + rest implies self.output@ == vals && r == vints_bytes(
                    deltas_from(vals, offset),
                ).len() by {
                lemma_vints_unique(deltas_from(vals, offset), rest, gd, grest);
                assert forall|j: int| 0 <= j < vals.len() implies vals[j] == gv[j] by {
                    lemma_prefix_sums(vals, gv, offset, j);
                }
                assert(vals =~= gv);
            }
        }
        r
    }

    /// The values read by the last call.
    pub fn output(&self) -> (r: &[u32])
        ensures
            r@ == self.spec_output(),
    {
        self.output.as_slice()
    }
}

/// Sorted values with the same gaps from the same offset are the same.
proof fn lemma_prefix_sums(a: Seq<u32>, b: Seq<u32>, offset: u32, j: int)
    requires
        a.len() == b.len(),
        0 <= j < a.len(),
        sorted_from(a, offset),
        sorted_from(b, offset),
        deltas_from(a, offset) == deltas_from(b, offset),
    ensures
        a[j] == b[j],
    decreases j,
{
    let pa: int = if j == 0 {
        offset as int
    } else {
        a[j - 1] as int
    };
    let pb: int = if j == 0 {
        offset as int
    } else {
        b[j - 1] as int
    };
    if j > 0 {
        lemma_prefix_sums(a, b, offset, j - 1);
        assert(a[j - 1] <= a[j]);
        assert(b[j - 1] <= b[j]);
    }
    assert(pa == pb);
    assert(deltas_from(a, offset)[j] == (a[j] - pa) as u32);
    assert(deltas_from(b, offset)[j] == (b[j] - pb) as u32);
    assert(0 <= a[j] - pa < 0x1_0000_0000);
    assert(0 <= b[j] - pb < 0x1_0000_0000);
    assert(deltas_from(a, offset)[j] == deltas_from(b, offset)[j]);
}

/// The bytes of the values from position `i` on.
pub open spec fn vints_tail(vals: Seq<u32>, i: int) -> Seq<u8> {
    vints_bytes(vals.subrange(i, vals.len() as int))
}

proof fn lemma_vints_cons(vals: Seq<u32>)
    requires
        vals.len() > 0,
    ensures
        vints_bytes(vals) == vint_bytes(vals[0] as nat) + vints_bytes(vals.drop_first()),
    decreases vals.len(),
{
    if vals.len() == 1 {
        assert(vals.drop_last() =~= Seq::<u32>::empty());
        assert(vals.drop_first() =~= Seq::<u32>::empty());
        assert(vints_bytes(Seq::<u32>::empty()) =~= Seq::<u8>::empty());
        assert(vints_bytes(vals) =~= vint_bytes(vals[0] as nat));
    } else {
        lemma_vints_cons(vals.drop_last());
        assert(vals.drop_last().drop_first() =~= vals.drop_first().drop_last());
        assert(vals.drop_first().last() == vals.last());
        assert(vints_bytes(vals) =~= vint_bytes(vals[0] as nat) + vints_bytes(vals.drop_first()));
    }
}

proof fn lemma_vints_tail_step(vals: Seq<u32>, i: int)
    requires
        0 <= i < vals.len(),
    ensures
        vints_tail(vals, i) == vint_bytes(vals[i] as nat) + vints_tail(vals, i + 1),
{
    let t = vals.subrange(i, vals.len() as int);
    lemma_vints_cons(t);
    assert(t.drop_first() =~= vals.subrange(i + 1, vals.len() as int));
}

proof fn lemma_vints_split(vals: Seq<u32>, i: int)
    requires
        0 <= i <= vals.len(),
    ensures
        vints_bytes(vals) == vints_bytes(vals.subrange(0, i)) + vints_tail(vals, i),
    decreases vals.len() - i,
{
    if i == vals.len() {
        assert(vals.subrange(0, i) =~= vals);
        assert(vals.subrange(i, vals.len() as int) =~= Seq::<u32>::empty());
        assert(vints_bytes(vals) =~= vints_bytes(vals.subrange(0, i)) + vints_tail(vals, i));
    } else {
        lemma_vints_split(vals, i + 1);
        lemma_vints_tail_step(vals, i);
        assert(vals.subrange(0, i + 1).drop_last() =~= vals.subrange(0, i));
        assert(vints_bytes(vals) =~= vints_bytes(vals.subrange(0, i)) + vints_tail(vals, i));
    }
}

/// A byte string starts with the encoding of at most one sequence of a
/// given length.
proof fn lemma_vints_unique(a: Seq<u32>, ra: Seq<u8>, b: Seq<u32>, rb: Seq<u8>)
    requires
        a.len() == b.len(),
        vints_bytes(a) + ra == vints_bytes(b) + rb,
    ensures
        a == b,
        vints_bytes(a).len() == vints_bytes(b).len(),
    decreases a.len(),
{
    if a.len() == 0 {
        assert(a =~= b);
    } else {
        lemma_vints_cons(a);
        lemma_vints_cons(b);
        let ta = vints_bytes(a.drop_first()) + ra;
        let tb = vints_bytes(b.drop_first()) + rb;
        assert(vints_bytes(a) + ra =~= vint_bytes(a[0] as nat) + ta);
        assert(vints_bytes(b) + rb =~= vint_bytes(b[0] as nat) + tb);
        lemma_vint32_round_trip(a[0], ta);
        lemma_vint32_round_trip(b[0], tb);
        let s = vint_bytes(a[0] as nat) + ta;
        assert(s == vint_bytes(b[0] as nat) + tb);
        assert(a[0] == b[0]);
        assert(ta == tb);
        lemma_vints_unique(a.drop_first(), ra, b.drop_first(), rb);
        assert forall|i: int| 0 <= i < a.len() implies a[i] == b[i] by {
            if i > 0 {
                assert(a[i] == a.drop_first()[i - 1]);
                assert(b[i] == b.drop_first()[i - 1]);
            }
        }
        assert(a =~= b);
    }
}



/// The number of values in a bit-packed block.
pub const COMPRESSION_BLOCK_SIZE: usize = 128;

/// Whether every value of `vals` fits in `num_bits` bits.
pub open spec fn fits_bits(vals: Seq<u32>, num_bits: u8) -> bool {
    &&& num_bits <= 32
    &&& num_bits < 32 ==> forall|i: int| 0 <= i < vals.len() ==> (vals[i] >> num_bits) == 0
}

/// The bytes that `BitPacker4x::compress` writes for `vals` at `num_bits`.
pub uninterp spec fn bp_packed(vals: Seq<u32>, num_bits: u8) -> Seq<u8>;

/// The bytes that `BitPacker4x::compress_strictly_sorted` writes for `vals`
/// after `initial` at `num_bits`.
pub uninterp spec fn bp_packed_strictly_sorted(initial: Option<u32>, vals: Seq<u32>, num_bits: u8) -> Seq<u8>;

/// Relies on `BitPacker4x::num_bits`: the width of the largest value.
#[verifier::external_body]
fn bp_num_bits(block: &[u32]) -> (r: u8)
    requires
        block@.len() == COMPRESSION_BLOCK_SIZE,
    ensures
        r == bit_width(block@),
{
    bitpacking::BitPacker4x::new().num_bits(block)
}

/// Relies on `BitPacker4x::num_bits_strictly_sorted`: the width of the
/// largest gap less one, the first gap taken from `initial` (from -1 when
/// there is none).
#[verifier::external_body]
fn bp_num_bits_strictly_sorted(initial: Option<u32>, block: &[u32]) -> (r: u8)
    requires
        block@.len() == COMPRESSION_BLOCK_SIZE,
        increasing_after(initial, block@),
    ensures
        r == bit_width(gaps(initial, block@)),
{
    bitpacking::BitPacker4x::new().num_bits_strictly_sorted(initial, block)
}

/// Relies on `BitPacker4x::compress`: `16 * num_bits` bytes that depend on
/// the values and the width alone.
#[verifier::external_body]
fn bp_compress(block: &[u32], num_bits: u8) -> (r: Vec<u8>)
    requires
        block@.len() == COMPRESSION_BLOCK_SIZE,
        fits_bits(block@, num_bits),
    ensures
        r@ == bp_packed(block@, num_bits),
        r@.len() == 16 * num_bits,
{
    let mut out = vec![0u8; 16 * 32];
    let n = bitpacking::BitPacker4x::new().compress(block, &mut out, num_bits);
    out.truncate(n);
    out
}

/// Relies on `BitPacker4x::compress_strictly_sorted`: `16 * num_bits`
/// bytes that depend on `initial`, the values and the width alone.
#[verifier::external_body]
fn bp_compress_strictly_sorted(initial: Option<u32>, block: &[u32], num_bits: u8) -> (r: Vec<u8>)
    requires
        block@.len() == COMPRESSION_BLOCK_SIZE,
        increasing_after(initial, block@),
        fits_bits(gaps(initial, block@), num_bits),
    ensures
        r@ == bp_packed_strictly_sorted(initial, block@, num_bits),
        r@.len() == 16 * num_bits,
{
    let mut out = vec![0u8; 16 * 32];
    let n = bitpacking::BitPacker4x::new().compress_strictly_sorted(initial, block, &mut out, num_bits);
    out.truncate(n);
    out
}

/// Relies on `BitPacker4x::decompress`, the inverse of `compress`: reads
/// `16 * num_bits` bytes back into the 128 values they were made from.
#[verifier::external_body]
fn bp_decompress(data: &[u8], num_bits: u8) -> (r: (Vec<u32>, usize))
    requires
        num_bits <= 32,
        data@.len() >= 16 * num_bits,
    ensures
        r.0@.len() == COMPRESSION_BLOCK_SIZE,
        r.1 == 16 * num_bits,
        forall|vals: Seq<u32>|
            vals.len() == COMPRESSION_BLOCK_SIZE && fits_bits(vals, num_bits) && data@.subrange(
                0,
                16 * num_bits,
            ) == bp_packed(vals, num_bits) ==> r.0@ == vals,
{
    let mut out = vec![0u32; 128];
    let n = bitpacking::BitPacker4x::new().decompress(data, &mut out, num_bits);
    (out, n)
}

/// Relies on `BitPacker4x::decompress_strictly_sorted`, the inverse of
/// `compress_strictly_sorted` with the same `initial`.
#[verifier::external_body]
fn bp_decompress_strictly_sorted(initial: Option<u32>, data: &[u8], num_bits: u8) -> (r: (
    Vec<u32>,
    usize,
))
    requires
        num_bits <= 32,
        data@.len() >= 16 * num_bits,
    ensures
        r.0@.len() == COMPRESSION_BLOCK_SIZE,
        r.1 == 16 * num_bits,
        forall|vals: Seq<u32>|
            vals.len() == COMPRESSION_BLOCK_SIZE && increasing_after(initial, vals) && fits_bits(
                gaps(initial, vals),
                num_bits,
            ) && data@.subrange(0, 16 * num_bits) == bp_packed_strictly_sorted(
                initial,
                vals,
                num_bits,
            ) ==> r.0@ == vals,
{
    let mut out = vec![0u32; 128];
    let n = bitpacking::BitPacker4x::new().decompress_strictly_sorted(initial, data, &mut out, num_bits);
    (out, n)
}

/// The previous docid of a bit-packed block: 0 stands for none.
pub open spec fn initial_of(offset: u32) -> Option<u32> {
    if offset == 0 {
        None
    } else {
        Some(offset)
    }
}

impl BlockEncoder {
    /// Bit-packs the gaps of a block of 128 strictly increasing values;
    /// `offset` is the value before the block, 0 standing for none.
    /// Returns the width and the bytes.
    pub fn compress_block_sorted(&mut self, block: &[u32], offset: u32) -> (r: (u8, &[u8]))
        requires
            block@.len() == COMPRESSION_BLOCK_SIZE,
            increasing_after(initial_of(offset), block@),
        ensures
            r.0 == bit_width(gaps(initial_of(offset), block@)),
            r.1@ == bp_packed_strictly_sorted(initial_of(offset), block@, r.0),
    {
        let initial = if offset == 0 {
            None
        } else {
            Some(offset)
        };
        let num_bits = bp_num_bits_strictly_sorted(initial, block);
        proof {
            let g = gaps(initial, block@);
            crate::delta_bitpack::lemma_bits_needed(crate::delta_bitpack::seq_max(g), 0);
            assert forall|i: int| 0 <= i < g.len() implies num_bits < 32 ==> (g[i] >> num_bits) == 0 by {
                lemma_bit_width(g, i);
            }
        }
        self.output = bp_compress_strictly_sorted(initial, block, num_bits);
        (num_bits, self.output.as_slice())
    }

    /// Bit-packs a block of 128 values. Returns the width and the bytes.
    pub fn compress_block_unsorted(&mut self, block: &[u32]) -> (r: (u8, &[u8]))
        requires
            block@.len() == COMPRESSION_BLOCK_SIZE,
        ensures
            r.0 == bit_width(block@),
            r.1@ == bp_packed(block@, r.0),
    {
        let num_bits = bp_num_bits(block);
        proof {
            crate::delta_bitpack::lemma_bits_needed(crate::delta_bitpack::seq_max(block@), 0);
            assert forall|i: int| 0 <= i < block@.len() implies num_bits < 32 ==> (block@[i] >> num_bits) == 0 by {
                lemma_bit_width(block@, i);
            }
        }
        self.output = bp_compress(block, num_bits);
        (num_bits, self.output.as_slice())
    }
}

impl BlockDecoder {
    /// Unpacks a block written by `compress_block_sorted` with the same
    /// `offset`; returns the number of bytes read.
    pub fn decompress_block_sorted(&mut self, block: &[u8], num_bits: u8, offset: u32) -> (r: usize)
        requires
            num_bits <= 32,
            block@.len() >= 16 * num_bits,
        ensures
            r == 16 * num_bits,
            final(self).spec_output().len() == COMPRESSION_BLOCK_SIZE,
            forall|vals: Seq<u32>|
                vals.len() == COMPRESSION_BLOCK_SIZE && increasing_after(initial_of(offset), vals)
                    && num_bits == bit_width(gaps(initial_of(offset), vals)) && block@.subrange(
                    0,
                    16 * num_bits,
                ) == bp_packed_strictly_sorted(initial_of(offset), vals, num_bits)
                    ==> final(self).spec_output() == vals,
    {
        let initial = if offset == 0 {
            None
        } else {
            Some(offset)
        };
        let (out, n) = bp_decompress_strictly_sorted(initial, block, num_bits);
        self.output = out;
        proof {
            assert forall|vals: Seq<u32>|
                vals.len() == COMPRESSION_BLOCK_SIZE && increasing_after(initial_of(offset), vals)
                    && num_bits == bit_width(gaps(initial_of(offset), vals)) implies fits_bits(
                    gaps(initial_of(offset), vals),
                    num_bits,
                ) by {
                let g = gaps(initial_of(offset), vals);
                crate::delta_bitpack::lemma_bits_needed(crate::delta_bitpack::seq_max(g), 0);
                assert forall|i: int| 0 <= i < g.len() implies num_bits < 32 ==> (g[i] >> num_bits) == 0 by {
                    lemma_bit_width(g, i);
                }
            }
        }
        n
    }

    /// Unpacks a block written by `compress_block_unsorted`; returns the
    /// number of bytes read.
    pub fn decompress_block_unsorted(&mut self, block: &[u8], num_bits: u8) -> (r: usize)
        requires
            num_bits <= 32,
            block@.len() >= 16 * num_bits,
        ensures
            r == 16 * num_bits,
            final(self).spec_output().len() == COMPRESSION_BLOCK_SIZE,
            forall|vals: Seq<u32>|
                vals.len() == COMPRESSION_BLOCK_SIZE && num_bits == bit_width(vals) && block@.subrange(
                    0,
                    16 * num_bits,
                ) == bp_packed(vals, num_bits) ==> final(self).spec_output() == vals,
    {
        let (out, n) = bp_decompress(block, num_bits);
        self.output = out;
        proof {
            assert forall|vals: Seq<u32>|
                vals.len() == COMPRESSION_BLOCK_SIZE && num_bits == bit_width(vals) implies fits_bits(
                    vals,
                    num_bits,
                ) by {
                crate::delta_bitpack::lemma_bits_needed(crate::delta_bitpack::seq_max(vals), 0);
                assert forall|i: int| 0 <= i < vals.len() implies num_bits < 32 ==> (vals[i] >> num_bits) == 0 by {
                    lemma_bit_width(vals, i);
                }
            }
        }
        n
    }
}

}
