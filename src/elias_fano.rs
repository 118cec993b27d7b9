//! Block codec in the Elias-Fano layout.
//!
//! Each entry becomes one 64-bit value `(docid - base) << fb | (freq - 1)`,
//! where `base` is one past the docid before the block and `fb` is the
//! width of the largest frequency less one. The block is a header of two
//! little-endian 64-bit words, `fb` and the universe (the last value plus
//! one), then a bit stream in 64-bit words: the zero pointers, sampled every
//! 512 zeros of the high part; the high part, in which value `i` sets bit
//! `(value >> lower_bits) + i + 1`; and the low `lower_bits` bits of each
//! value. Bit `q` of the stream is bit `q % 8` of its byte `q / 8`.
use crate::delta_bitpack::{
    bit_at, bit_width, bits_value, freqs_less_one, lemma_bit_width, lemma_bits_needed,
    lemma_byte_bits, less_one, num_bits, prev_docid, read_bits, seq_max, valid_block,
    MAX_BLOCK_LEN,
};
use vstd::arithmetic::power2::pow2;
use vstd::bits::lemma_u64_shr_is_div;
use vstd::prelude::*;

verus! {

/// The number of zeros of the high part between two zero pointers, as a
/// power of two.
pub const EF_LOG_SAMPLING0: u64 = 9;

/// The least `b' >= b` such that `x >> (b' + 1)` is zero, at most 63.
pub open spec fn log2_from(x: u64, b: u64) -> u64
    decreases 64 - b,
{
    if b >= 63 || (x >> ((b + 1) as u64)) == 0 {
        b
    } else {
        log2_from(x, (b + 1) as u64)
    }
}

/// `ceil(log2(x))`, 0 below 2.
pub open spec fn ceil_log2_spec(x: u64) -> u64 {
    if x < 2 {
        0
    } else {
        (log2_from((x - 1) as u64, 0) + 1) as u64
    }
}

/// Where each part of the bit stream of a block lies.
#[derive(Clone, Copy)]
pub struct EfLayout {
    pub universe: u64,
    pub len: u64,
    pub lower_bits: u64,
    pub higher_bits_length: u64,
    pub pointer_size: u64,
    pub higher_bits_offset: u64,
    pub lower_bits_offset: u64,
    pub end: u64,
}

/// The layout for `len` values below `universe`.
pub open spec fn ef_layout(universe: u64, len: u64) -> EfLayout {
    let lower_bits = if universe > len {
        log2_from(universe / len, 0)
    } else {
        0
    };
    let higher_bits_length = (len + (universe >> lower_bits) + 2) as u64;
    let pointer_size = ceil_log2_spec(higher_bits_length);
    let pointers0 = ((higher_bits_length - len) as u64) >> EF_LOG_SAMPLING0;
    let higher_bits_offset = (pointers0 * pointer_size) as u64;
    let lower_bits_offset = (higher_bits_offset + higher_bits_length) as u64;
    let end = (lower_bits_offset + len * lower_bits) as u64;
    EfLayout {
        universe,
        len,
        lower_bits,
        higher_bits_length,
        pointer_size,
        higher_bits_offset,
        lower_bits_offset,
        end,
    }
}

proof fn lemma_log2_from(x: u64, b: u64)
    requires
        b <= 63,
    ensures
        b <= log2_from(x, b) <= 63,
        log2_from(x, b) < 63 ==> (x >> ((log2_from(x, b) + 1) as u64)) == 0,
    decreases 64 - b,
{
    if !(b >= 63 || (x >> ((b + 1) as u64)) == 0) {
        lemma_log2_from(x, (b + 1) as u64);
    }
}

/// The high part is at most `3 len + 2` bits long.
proof fn lemma_layout_bounds(universe: u64, len: u64)
    requires
        1 <= len <= MAX_BLOCK_LEN,
    ensures
        ef_layout(universe, len).lower_bits <= 63,
        (universe >> ef_layout(universe, len).lower_bits) <= 2 * len,
        ef_layout(universe, len).higher_bits_length == len + (universe >> ef_layout(
            universe,
            len,
        ).lower_bits) + 2,
{
    let m = universe / len;
    if universe > len {
        let lb = log2_from(m, 0);
        lemma_log2_from(m, 0);
        if lb < 63 {
            lemma_u64_shr_is_div(m, (lb + 1) as u64);
            lemma_u64_shr_is_div(universe, lb);
            vstd::arithmetic::power2::lemma_pow2_unfold((lb + 1) as nat);
            vstd::arithmetic::power2::lemma_pow2_pos(lb as nat);
            let p = pow2(lb as nat);
            assert(m < 2 * p) by (nonlinear_arith)
                requires
                    m as nat / (2 * p) == 0,
                    p > 0,
            ;
            assert(universe < len * (m + 1)) by (nonlinear_arith)
                requires
                    m == universe / len,
                    len > 0,
            ;
            assert(universe as nat / p <= 2 * len) by (nonlinear_arith)
                requires
                    universe < len * (m + 1),
                    m < 2 * p,
                    p > 0,
                    len > 0,
            ;
        } else {
            assert((universe >> 63u64) <= 1) by (bit_vector);
        }
    } else {
        assert((universe >> 0u64) == universe) by (bit_vector);
    }
}


fn log2_exec(x: u64) -> (r: u64)
    ensures
        r == log2_from(x, 0),
{
    let mut b: u64 = 0;
    while b < 63 && (x >> (b + 1)) != 0
        invariant
            b <= 63,
            log2_from(x, b) == log2_from(x, 0),
        decreases 63 - b,
    {
        b += 1;
    }
    b
}

/// `ceil(log2(x))`, 0 below 2.
fn ceil_log2(x: u64) -> (r: u64)
    ensures
        r == ceil_log2_spec(x),
        r <= 64,
{
    if x < 2 {
        0
    } else {
        proof {
            lemma_log2_from((x - 1) as u64, 0);
        }
        log2_exec(x - 1) + 1
    }
}

/// The largest bit position a layout of `len` values can reach.
pub open spec fn layout_fits(l: EfLayout) -> bool {
    &&& l.lower_bits <= 63
    &&& l.higher_bits_length <= 3 * MAX_BLOCK_LEN + 2
    &&& l.higher_bits_offset <= l.lower_bits_offset
    &&& l.lower_bits_offset == l.higher_bits_offset + l.higher_bits_length
    &&& l.end == l.lower_bits_offset + l.len * l.lower_bits
    &&& l.end <= 0x8000_0000
    &&& l.higher_bits_offset == (((l.higher_bits_length - l.len) as u64) >> EF_LOG_SAMPLING0)
        * l.pointer_size
    &&& l.pointer_size <= 64
    &&& l.higher_bits_offset <= 0x100_0000
}

/// Computes the layout for `len` values below `universe`.
fn layout_of(universe: u64, len: u64) -> (r: EfLayout)
    requires
        1 <= len <= MAX_BLOCK_LEN,
    ensures
        r == ef_layout(universe, len),
        layout_fits(r),
{
    proof {
        lemma_layout_bounds(universe, len);
    }
    let lower_bits = if universe > len {
        log2_exec(universe / len)
    } else {
        0
    };
    let higher_bits_length = len + (universe >> lower_bits) + 2;
    let pointer_size = ceil_log2(higher_bits_length);
    let zeros = higher_bits_length - len;
    let pointers0 = zeros >> EF_LOG_SAMPLING0;
    proof {
        assert(pointers0 == zeros / 512) by (bit_vector)
            requires
                pointers0 == zeros >> 9u64,
        ;
        assert(pointers0 * pointer_size <= 0x100_0000) by (nonlinear_arith)
            requires
                pointers0 == zeros / 512,
                zeros <= 2 * MAX_BLOCK_LEN + 2,
                pointer_size <= 64,
        ;
        assert(len * lower_bits <= MAX_BLOCK_LEN * 63) by (nonlinear_arith)
            requires
                len <= MAX_BLOCK_LEN,
                lower_bits <= 63,
        ;
    }
    let higher_bits_offset = pointers0 * pointer_size;
    let lower_bits_offset = higher_bits_offset + higher_bits_length;
    let end = lower_bits_offset + len * lower_bits;
    EfLayout {
        universe,
        len,
        lower_bits,
        higher_bits_length,
        pointer_size,
        higher_bits_offset,
        lower_bits_offset,
        end,
    }
}

/// One past the docid before the block.
pub open spec fn ef_base(offset: Option<u32>) -> int {
    prev_docid(offset) + 1
}

/// A block that the codec takes: valid, not empty, and holding no
/// reserved docid.
pub open spec fn ef_encodable(offset: Option<u32>, docids: Seq<u32>, freqs: Seq<u32>) -> bool {
    &&& valid_block(offset, docids, freqs)
    &&& docids.len() >= 1
    &&& forall|i: int| 0 <= i < docids.len() ==> docids[i] < u32::MAX
}

/// The width of the largest frequency less one.
pub open spec fn ef_freq_bits(freqs: Seq<u32>) -> u8 {
    bit_width(freqs_less_one(freqs))
}

/// The value of each entry.
pub open spec fn ef_values(offset: Option<u32>, docids: Seq<u32>, freqs: Seq<u32>) -> Seq<u64> {
    Seq::new(
        docids.len(),
        |i: int|
            (((docids[i] - ef_base(offset)) as u64) << (ef_freq_bits(freqs) as u64)) | ((freqs[i]
                - 1) as u64),
    )
}

/// Position of value `i` in the high part.
pub open spec fn ef_high(vals: Seq<u64>, lb: u64, i: int) -> int {
    (vals[i] >> lb) as int + i + 1
}

/// How many of the first `m` values have a high part below `z`.
pub open spec fn count_high_below(vals: Seq<u64>, lb: u64, z: int, m: int) -> nat
    decreases m,
{
    if m <= 0 {
        0
    } else {
        count_high_below(vals, lb, z, m - 1) + if ((vals[m - 1] >> lb) as int) < z {
            1nat
        } else {
            0nat
        }
    }
}

/// Zero pointer `j`: the position in the high part of its zero of rank `512 j`.
pub open spec fn ef_pointer(vals: Seq<u64>, lb: u64, j: int) -> int {
    512 * j + count_high_below(vals, lb, 512 * j, vals.len() as int)
}

/// Bit `q` of the stream of a block with values `vals`.
pub open spec fn ef_bit(vals: Seq<u64>, l: EfLayout, q: int) -> u8 {
    if q < l.higher_bits_offset {
        let s = q / (l.pointer_size as int);
        let b = q % (l.pointer_size as int);
        (((ef_pointer(vals, l.lower_bits, s + 1) as u64) >> (b as u64)) & 1) as u8
    } else if q < l.lower_bits_offset {
        let p = q - l.higher_bits_offset;
        if exists|i: int| 0 <= i < vals.len() && ef_high(vals, l.lower_bits, i) == p {
            1
        } else {
            0
        }
    } else if q < l.end {
        let r = q - l.lower_bits_offset;
        ((vals[r / (l.lower_bits as int)] >> ((r % (l.lower_bits as int)) as u64)) & 1) as u8
    } else {
        0
    }
}

/// The low `b` bits of byte `k` of the stream.
pub open spec fn ef_byte(vals: Seq<u64>, l: EfLayout, k: int, b: nat) -> u8
    decreases b,
{
    if b == 0 {
        0
    } else {
        ef_byte(vals, l, k, (b - 1) as nat) | (ef_bit(vals, l, 8 * k + b - 1) << ((b - 1) as u8))
    }
}

/// The number of bytes of the stream: whole 64-bit words.
pub open spec fn ef_stream_len(l: EfLayout) -> nat {
    8 * ((l.end as nat + 63) / 64)
}

/// The little-endian bytes of `v`.
pub open spec fn le_bytes(v: u64) -> Seq<u8> {
    Seq::new(8, |i: int| ((v >> ((8 * i) as u64)) & 0xff) as u8)
}

/// The bytes that encode a block.
pub open spec fn ef_encoded(offset: Option<u32>, docids: Seq<u32>, freqs: Seq<u32>) -> Seq<u8> {
    let vals = ef_values(offset, docids, freqs);
    let universe = (vals.last() + 1) as u64;
    let l = ef_layout(universe, docids.len() as u64);
    le_bytes(ef_freq_bits(freqs) as u64) + le_bytes(universe) + Seq::new(
        ef_stream_len(l),
        |k: int| ef_byte(vals, l, k, 8),
    )
}


/// The position in the high part that the stream has reached at bit `q`.
pub open spec fn high_reached(l: EfLayout, q: int) -> int {
    if q <= l.higher_bits_offset {
        0
    } else if q >= l.lower_bits_offset {
        l.higher_bits_length as int
    } else {
        q - l.higher_bits_offset
    }
}

/// Values with strictly increasing docids are strictly increasing.
proof fn lemma_values_increase(offset: Option<u32>, docids: Seq<u32>, freqs: Seq<u32>, i: int, j: int)
    requires
        ef_encodable(offset, docids, freqs),
        0 <= i < j < docids.len(),
    ensures
        ef_values(offset, docids, freqs)[i] < ef_values(offset, docids, freqs)[j],
{
    let fb = ef_freq_bits(freqs) as u64;
    let f = freqs_less_one(freqs);
    lemma_bit_width(f, i);
    lemma_bit_width(f, j);
    let a = (docids[i] - ef_base(offset)) as u64;
    let b = (docids[j] - ef_base(offset)) as u64;
    let x = (freqs[i] - 1) as u64;
    let y = (freqs[j] - 1) as u64;
    let xf = f[i];
    let yf = f[j];
    assert(x == xf as u64 && y == yf as u64);
    assert(docids[i] < docids[j]);
    assert(x < (1u64 << fb) && y < (1u64 << fb)) by (bit_vector)
        requires
            fb <= 32,
            fb < 32 ==> (xf >> (fb as u32)) == 0,
            fb < 32 ==> (yf >> (fb as u32)) == 0,
            x == xf as u64,
            y == yf as u64,
    ;
    assert(((a << fb) | x) < ((b << fb) | y)) by (bit_vector)
        requires
            a < b,
            b < 0x1_0000_0000,
            fb <= 32,
            x < (1u64 << fb),
            y < (1u64 << fb),
    ;
}

/// High positions of increasing values strictly increase.
proof fn lemma_high_increase(vals: Seq<u64>, lb: u64, i: int, j: int)
    requires
        0 <= i < j < vals.len(),
        vals[i] < vals[j],
    ensures
        ef_high(vals, lb, i) < ef_high(vals, lb, j),
{
    let a = vals[i];
    let b = vals[j];
    assert((a >> lb) <= (b >> lb)) by (bit_vector)
        requires
            a < b,
    ;
}

/// The values of a block, in order.
fn values_of(offset: Option<u32>, docids: &[u32], freqs: &[u32], fb: u8) -> (r: Vec<u64>)
    requires
        ef_encodable(offset, docids@, freqs@),
        fb == ef_freq_bits(freqs@),
        fb <= 32,
    ensures
        r@ == ef_values(offset, docids@, freqs@),
{
    let base: u32 = match offset {
        Some(o) => {
            assert(docids@[0] > o);
            o + 1
        },
        None => 0,
    };
    let mut r: Vec<u64> = Vec::new();
    let mut i: usize = 0;
    while i < docids.len()
        invariant
            ef_encodable(offset, docids@, freqs@),
            fb == ef_freq_bits(freqs@),
            fb <= 32,
            base == ef_base(offset),
            i <= docids@.len(),
            r@ == ef_values(offset, docids@, freqs@).subrange(0, i as int),
        decreases docids@.len() - i,
    {
        assert(docids@[i as int] >= docids@[0]);
        let d = (docids[i] - base) as u64;
        let f = (freqs[i] - 1) as u64;
        r.push((d << (fb as u64)) | f);
        i += 1;
        assert(r@ =~= ef_values(offset, docids@, freqs@).subrange(0, i as int));
    }
    assert(r@ =~= ef_values(offset, docids@, freqs@));
    r
}

/// Zero pointer `j`.
fn pointer_value(vals: &Vec<u64>, lb: u64, j: u64) -> (r: u64)
    requires
        j <= 0x100_0000,
        lb < 64,
        vals@.len() <= MAX_BLOCK_LEN,
    ensures
        r == ef_pointer(vals@, lb, j as int),
{
    let z = 512 * j;
    let mut count: u64 = 0;
    let mut m: usize = 0;
    while m < vals.len()
        invariant
            m <= vals@.len(),
            vals@.len() <= MAX_BLOCK_LEN,
            z == 512 * j,
            lb < 64,
            count == count_high_below(vals@, lb, z as int, m as int),
            count <= m,
        decreases vals@.len() - m,
    {
        if (vals[m] >> lb) < z {
            count += 1;
        }
        m += 1;
    }
    z + count
}

/// The stream bit by bit; each bit is what `ef_bit` says.
fn stream_bit(vals: &Vec<u64>, l: EfLayout, q: u64, hi: &mut usize) -> (r: u8)
    requires
        layout_fits(l),
        1 <= vals@.len() <= MAX_BLOCK_LEN,
        l.len == vals@.len(),
        q < 0x8000_0000 + 64,
        forall|a: int, b: int| 0 <= a < b < vals@.len() ==> vals@[a] < vals@[b],
        forall|a: int| 0 <= a < vals@.len() ==> ef_high(vals@, l.lower_bits, a) < l.higher_bits_length,
        *old(hi) <= vals@.len(),
        forall|m: int| 0 <= m < *old(hi) ==> ef_high(vals@, l.lower_bits, m) < high_reached(l, q as int),
        forall|m: int| *old(hi) <= m < vals@.len() ==> ef_high(vals@, l.lower_bits, m) >= high_reached(l, q as int),
    ensures
        r == ef_bit(vals@, l, q as int),
        *final(hi) <= vals@.len(),
        forall|m: int| 0 <= m < *final(hi) ==> ef_high(vals@, l.lower_bits, m) < high_reached(l, q + 1),
        forall|m: int| *final(hi) <= m < vals@.len() ==> ef_high(vals@, l.lower_bits, m) >= high_reached(l, q + 1),
{
    let lb = l.lower_bits;
    if q < l.higher_bits_offset {
        let s = q / l.pointer_size;
        let b = q % l.pointer_size;
        proof {
            assert(s < 0x100_0000) by (nonlinear_arith)
                requires
                    s == q / l.pointer_size,
                    q < l.higher_bits_offset,
                    l.higher_bits_offset <= 0x100_0000,
                    l.pointer_size > 0,
            ;
        }
        let p = pointer_value(vals, lb, s + 1);
        #[verifier::truncate]
        let bit = ((p >> b) & 1) as u8;
        bit
    } else if q < l.lower_bits_offset {
        let p = q - l.higher_bits_offset;
        let i = *hi;
        proof {
            if i < vals@.len() {
                assert(ef_high(vals@, lb, i as int) < l.higher_bits_length);
            }
        }
        if i < vals.len() && (vals[i] >> lb) + i as u64 + 1 == p {
            *hi = i + 1;
            proof {
                assert forall|m: int| i + 1 <= m < vals@.len() implies ef_high(vals@, lb, m) >= p + 1 by {
                    lemma_high_increase(vals@, lb, i as int, m);
                }
            }
            1
        } else {
            proof {
                assert(!exists|m: int| 0 <= m < vals@.len() && ef_high(vals@, lb, m) == p) by {
                    if exists|m: int| 0 <= m < vals@.len() && ef_high(vals@, lb, m) == p {
                        let m = choose|m: int| 0 <= m < vals@.len() && ef_high(vals@, lb, m) == p;
                        if m > i {
                            lemma_high_increase(vals@, lb, i as int, m);
                        }
                    }
                }
            }
            0
        }
    } else if q < l.end {
        let r = q - l.lower_bits_offset;
        proof {
            assert(l.lower_bits > 0) by (nonlinear_arith)
                requires
                    r < l.len * l.lower_bits,
            ;
            assert(r / lb < l.len) by (nonlinear_arith)
                requires
                    r < l.len * lb,
                    lb > 0,
            ;
        }
        let v = vals[(r / lb) as usize];
        #[verifier::truncate]
        let bit = ((v >> (r % lb)) & 1) as u8;
        bit
    } else {
        0
    }
}


/// Appends the little-endian bytes of `v`.
fn push_le(out: &mut Vec<u8>, v: u64)
    ensures
        final(out)@ == old(out)@ + le_bytes(v),
{
    let mut i: u64 = 0;
    while i < 8
        invariant
            i <= 8,
            out@ == old(out)@ + le_bytes(v).subrange(0, i as int),
        decreases 8 - i,
    {
        #[verifier::truncate]
        let b = ((v >> (8 * i)) & 0xff) as u8;
        out.push(b);
        i += 1;
        assert(out@ =~= old(out)@ + le_bytes(v).subrange(0, i as int));
    }
    assert(le_bytes(v).subrange(0, 8) =~= le_bytes(v));
}

/// Encoder of blocks; keeps its output buffer between blocks.
pub struct EliasFanoEncode {
    output: Vec<u8>,
}

impl EliasFanoEncode {
    pub fn new() -> Self {
        Self { output: Vec::new() }
    }

    /// Encodes a block of at least one entry; `offset` is the last docid of
    /// the block before, if any.
    pub fn encode(&mut self, offset: Option<u32>, docids: &[u32], freqs: &[u32]) -> (r: &[u8])
        requires
            ef_encodable(offset, docids@, freqs@),
        ensures
            r@ == ef_encoded(offset, docids@, freqs@),
    {
        let f = less_one(freqs);
        let fb = num_bits(f.as_slice());
        proof {
            assert(f@ =~= freqs_less_one(freqs@));
        }
        let vals = values_of(offset, docids, freqs, fb);
        let n = vals.len();
        let ghost vs = vals@;
        proof {
            assert forall|a: int, b: int| 0 <= a < b < vs.len() implies vs[a] < vs[b] by {
                lemma_values_increase(offset, docids@, freqs@, a, b);
            }
            let fbu = fb as u64;
            let d = (docids@[n - 1] - ef_base(offset)) as u64;
            let x = (freqs@[n - 1] - 1) as u64;
            assert(docids@[n - 1] < u32::MAX);
            assert(((d << fbu) | x) < 0xffff_ffff_ffff_ffff) by (bit_vector)
                requires
                    d < 0xffff_ffff,
                    x <= 0xffff_ffff,
                    fbu <= 32,
            ;
        }
        let universe = vals[n - 1] + 1;
        let l = layout_of(universe, n as u64);
        proof {
            lemma_layout_bounds(universe, n as u64);
            assert forall|a: int| 0 <= a < vs.len() implies ef_high(vs, l.lower_bits, a)
                < l.higher_bits_length by {
                let v = vs[a];
                let lb = l.lower_bits;
                if a < n - 1 {
                    assert(vs[a] < vs[n - 1]);
                }
                assert((v >> lb) <= (universe >> lb)) by (bit_vector)
                    requires
                        v < universe,
                ;
            }
        }
        self.output.clear();
        push_le(&mut self.output, fb as u64);
        push_le(&mut self.output, universe);
        let ghost head = le_bytes(fb as u64) + le_bytes(universe);
        let ghost stream = Seq::new(ef_stream_len(l), |k: int| ef_byte(vs, l, k, 8));
        assert(self.output@ =~= head + stream.subrange(0, 0));
        let total: u64 = ((l.end + 63) / 64) * 8;
        let mut k: u64 = 0;
        let mut hi: usize = 0;
        while k < total
            invariant
                layout_fits(l),
                1 <= vs.len() <= MAX_BLOCK_LEN,
                vals@ == vs,
                l.len == vs.len(),
                total == ef_stream_len(l),
                k <= total,
                total <= 0x1000_0008,
                forall|a: int, b: int| 0 <= a < b < vs.len() ==> vs[a] < vs[b],
                forall|a: int| 0 <= a < vs.len() ==> ef_high(vs, l.lower_bits, a) < l.higher_bits_length,
                hi <= vs.len(),
                forall|m: int| 0 <= m < hi ==> ef_high(vs, l.lower_bits, m) < high_reached(l, 8 * k as int),
                forall|m: int| hi <= m < vs.len() ==> ef_high(vs, l.lower_bits, m) >= high_reached(l, 8 * k as int),
                stream == Seq::new(ef_stream_len(l), |j: int| ef_byte(vs, l, j, 8)),
                self.output@ == head + stream.subrange(0, k as int),
            decreases total - k,
        {
            let mut byte: u8 = 0;
            let mut b: u8 = 0;
            while b < 8
                invariant
                    layout_fits(l),
                    1 <= vs.len() <= MAX_BLOCK_LEN,
                    vals@ == vs,
                    l.len == vs.len(),
                    k < total,
                    total <= 0x1000_0008,
                    b <= 8,
                    forall|a: int, c: int| 0 <= a < c < vs.len() ==> vs[a] < vs[c],
                    forall|a: int| 0 <= a < vs.len() ==> ef_high(vs, l.lower_bits, a) < l.higher_bits_length,
                    hi <= vs.len(),
                    forall|m: int| 0 <= m < hi ==> ef_high(vs, l.lower_bits, m) < high_reached(l, 8 * k + b),
                    forall|m: int| hi <= m < vs.len() ==> ef_high(vs, l.lower_bits, m) >= high_reached(l, 8 * k + b),
                    byte == ef_byte(vs, l, k as int, b as nat),
                decreases 8 - b,
            {
                let bit = stream_bit(&vals, l, 8 * k + b as u64, &mut hi);
                byte = byte | (bit << b);
                b += 1;
            }
            self.output.push(byte);
            k += 1;
            assert(self.output@ =~= head + stream.subrange(0, k as int));
        }
        assert(stream.subrange(0, k as int) =~= stream);
        assert(vs.last() == vals@[n - 1]);
        self.output.as_slice()
    }
}


/// Reading `len` bits that spell the low bits of `v` gives those bits.
proof fn lemma_bits_value64(bytes: Seq<u8>, start: int, len: nat, v: u64)
    requires
        len <= 63,
        forall|j: int| 0 <= j < len ==> #[trigger] bit_at(bytes, start + j) == ((v >> (j as u64)) & 1) as u8,
    ensures
        bits_value(bytes, start, len) == v & (((1u64 << (len as u64)) - 1) as u64),
    decreases len,
{
    if len == 0 {
        assert(v & (((1u64 << 0u64) - 1) as u64) == 0) by (bit_vector);
    } else {
        let l = (len - 1) as u64;
        lemma_bits_value64(bytes, start, (len - 1) as nat, v);
        let b = bit_at(bytes, start + l);
        assert(b == ((v >> l) & 1) as u8);
        assert((v & (((1u64 << l) - 1) as u64)) | ((b as u64) << l) == v & (((1u64 << (l + 1)) - 1) as u64))
            by (bit_vector)
            requires
                l < 63,
                b == ((v >> l) & 1) as u8,
        ;
    }
}

proof fn lemma_ef_bit_is_bit(vals: Seq<u64>, l: EfLayout, q: int)
    ensures
        ef_bit(vals, l, q) <= 1,
{
    if q < l.higher_bits_offset {
        let x = ef_pointer(vals, l.lower_bits, q / (l.pointer_size as int) + 1) as u64;
        let b = (q % (l.pointer_size as int)) as u64;
        assert(((x >> b) & 1) as u8 <= 1) by (bit_vector);
    } else if q < l.lower_bits_offset {
    } else if q < l.end {
        let r = q - l.lower_bits_offset;
        let x = vals[r / (l.lower_bits as int)];
        let b = (r % (l.lower_bits as int)) as u64;
        assert(((x >> b) & 1) as u8 <= 1) by (bit_vector);
    }
}

/// Bit `q` of the stream, read from its bytes, is stream bit `q`.
proof fn lemma_ef_bit_at(data: Seq<u8>, vals: Seq<u64>, l: EfLayout, q: int)
    requires
        0 <= q < 8 * ef_stream_len(l),
        data.len() == 16 + ef_stream_len(l),
        forall|k: int| 0 <= k < ef_stream_len(l) ==> #[trigger] data[16 + k] == ef_byte(vals, l, k, 8),
    ensures
        bit_at(data, 128 + q) == ef_bit(vals, l, q),
{
    let k = q / 8;
    reveal_with_fuel(ef_byte, 9);
    lemma_ef_bit_is_bit(vals, l, 8 * k);
    lemma_ef_bit_is_bit(vals, l, 8 * k + 1);
    lemma_ef_bit_is_bit(vals, l, 8 * k + 2);
    lemma_ef_bit_is_bit(vals, l, 8 * k + 3);
    lemma_ef_bit_is_bit(vals, l, 8 * k + 4);
    lemma_ef_bit_is_bit(vals, l, 8 * k + 5);
    lemma_ef_bit_is_bit(vals, l, 8 * k + 6);
    lemma_ef_bit_is_bit(vals, l, 8 * k + 7);
    let x = data[16 + k];
    assert(x == ef_byte(vals, l, k, 8));
    assert((128 + q) / 8 == 16 + k && (128 + q) % 8 == q % 8);
    lemma_byte_bits(
        ef_bit(vals, l, 8 * k),
        ef_bit(vals, l, 8 * k + 1),
        ef_bit(vals, l, 8 * k + 2),
        ef_bit(vals, l, 8 * k + 3),
        ef_bit(vals, l, 8 * k + 4),
        ef_bit(vals, l, 8 * k + 5),
        ef_bit(vals, l, 8 * k + 6),
        ef_bit(vals, l, 8 * k + 7),
        x,
    );
}

/// The value spelled by `s[at..at + 8]`, little-endian.
pub open spec fn le_value(s: Seq<u8>, at: int) -> u64 {
    (s[at] as u64) | ((s[at + 1] as u64) << 8u64) | ((s[at + 2] as u64) << 16u64) | ((s[at + 3]
        as u64) << 24u64) | ((s[at + 4] as u64) << 32u64) | ((s[at + 5] as u64) << 40u64) | ((s[at
        + 6] as u64) << 48u64) | ((s[at + 7] as u64) << 56u64)
}

proof fn lemma_le_round_trip(v: u64)
    ensures
        le_value(le_bytes(v), 0) == v,
{
    let s = le_bytes(v);
    let b0 = s[0];
    let b1 = s[1];
    let b2 = s[2];
    let b3 = s[3];
    let b4 = s[4];
    let b5 = s[5];
    let b6 = s[6];
    let b7 = s[7];
    assert(b0 == ((v >> 0u64) & 0xff) as u8);
    assert(b1 == ((v >> 8u64) & 0xff) as u8);
    assert(b2 == ((v >> 16u64) & 0xff) as u8);
    assert(b3 == ((v >> 24u64) & 0xff) as u8);
    assert(b4 == ((v >> 32u64) & 0xff) as u8);
    assert(b5 == ((v >> 40u64) & 0xff) as u8);
    assert(b6 == ((v >> 48u64) & 0xff) as u8);
    assert(b7 == ((v >> 56u64) & 0xff) as u8);
    assert((b0 as u64) | ((b1 as u64) << 8u64) | ((b2 as u64) << 16u64) | ((b3 as u64) << 24u64)
        | ((b4 as u64) << 32u64) | ((b5 as u64) << 40u64) | ((b6 as u64) << 48u64) | ((b7 as u64)
        << 56u64) == v) by (bit_vector)
        requires
            b0 == ((v >> 0u64) & 0xff) as u8,
            b1 == ((v >> 8u64) & 0xff) as u8,
            b2 == ((v >> 16u64) & 0xff) as u8,
            b3 == ((v >> 24u64) & 0xff) as u8,
            b4 == ((v >> 32u64) & 0xff) as u8,
            b5 == ((v >> 40u64) & 0xff) as u8,
            b6 == ((v >> 48u64) & 0xff) as u8,
            b7 == ((v >> 56u64) & 0xff) as u8,
    ;
}

/// Reads a little-endian 64-bit word at byte `at`.
fn read_le(data: &[u8], at: usize) -> (r: u64)
    requires
        at + 8 <= data@.len(),
    ensures
        r == le_value(data@, at as int),
{
    (data[at] as u64) | ((data[at + 1] as u64) << 8u64) | ((data[at + 2] as u64) << 16u64) | ((
    data[at + 3] as u64) << 24u64) | ((data[at + 4] as u64) << 32u64) | ((data[at + 5] as u64)
        << 40u64) | ((data[at + 6] as u64) << 48u64) | ((data[at + 7] as u64) << 56u64)
}

/// Whether `data` is the encoding of some block of `n` entries after `offset`.
pub open spec fn ef_decodable(data: Seq<u8>, offset: Option<u32>, n: nat) -> bool {
    exists|d: Seq<u32>, f: Seq<u32>|
        ef_encodable(offset, d, f) && d.len() == n && data == ef_encoded(offset, d, f)
}

/// Two strictly increasing sequences with the same members are equal.
proof fn lemma_same_members(a: Seq<int>, b: Seq<int>)
    requires
        a.len() == b.len(),
        forall|i: int, j: int| 0 <= i < j < a.len() ==> a[i] < a[j],
        forall|i: int, j: int| 0 <= i < j < b.len() ==> b[i] < b[j],
        forall|i: int| 0 <= i < a.len() ==> b.contains(#[trigger] a[i]),
        forall|i: int| 0 <= i < b.len() ==> a.contains(#[trigger] b[i]),
    ensures
        a == b,
{
    assert forall|k: int| 0 <= k < a.len() implies a[k] == b[k] by {
        lemma_same_members_at(a, b, k);
    }
    assert(a =~= b);
}

proof fn lemma_same_members_at(a: Seq<int>, b: Seq<int>, k: int)
    requires
        a.len() == b.len(),
        0 <= k < a.len(),
        forall|i: int, j: int| 0 <= i < j < a.len() ==> a[i] < a[j],
        forall|i: int, j: int| 0 <= i < j < b.len() ==> b[i] < b[j],
        forall|i: int| 0 <= i < a.len() ==> b.contains(#[trigger] a[i]),
        forall|i: int| 0 <= i < b.len() ==> a.contains(#[trigger] b[i]),
    ensures
        a[k] == b[k],
    decreases k,
{
    if k > 0 {
        lemma_same_members_at(a, b, k - 1);
    }
    assert forall|i: int| 0 <= i < k implies a[i] == b[i] by {
        lemma_same_members_at(a, b, i);
    }
    if a[k] < b[k] {
        assert(b.contains(a[k]));
        let m = choose|m: int| 0 <= m < b.len() && b[m] == a[k];
        if m < k {
            assert(a[m] < a[k]);
        } else if m > k {
            assert(b[k] < b[m]);
        }
    } else if b[k] < a[k] {
        assert(a.contains(b[k]));
        let m = choose|m: int| 0 <= m < a.len() && a[m] == b[k];
        if m < k {
            assert(b[m] < b[k]);
        } else if m > k {
            assert(a[k] < a[m]);
        }
    }
}

/// The high positions of the values of a block are below the length of
/// the high part, and strictly increase.
proof fn lemma_block_highs(offset: Option<u32>, d: Seq<u32>, f: Seq<u32>)
    requires
        ef_encodable(offset, d, f),
        d.len() <= MAX_BLOCK_LEN,
    ensures
        ({
            let vs = ef_values(offset, d, f);
            let u = (vs.last() + 1) as u64;
            let l = ef_layout(u, d.len() as u64);
            &&& vs.last() < u64::MAX
            &&& layout_fits(l)
            &&& forall|a: int, b: int| 0 <= a < b < vs.len() ==> vs[a] < vs[b]
            &&& forall|a: int| 0 <= a < vs.len() ==> ef_high(vs, l.lower_bits, a) < l.higher_bits_length
        }),
{
    let vs = ef_values(offset, d, f);
    let n = d.len() as int;
    let fbu = ef_freq_bits(f) as u64;
    lemma_bits_needed(seq_max(freqs_less_one(f)), 0);
    let dd = (d[n - 1] - ef_base(offset)) as u64;
    let x = (f[n - 1] - 1) as u64;
    assert(d[n - 1] < u32::MAX);
    assert(d[n - 1] >= d[0]);
    assert(((dd << fbu) | x) < 0xffff_ffff_ffff_ffff) by (bit_vector)
        requires
            dd < 0xffff_ffff,
            x <= 0xffff_ffff,
            fbu <= 32,
    ;
    assert(vs.last() == vs[n - 1]);
    let u = (vs.last() + 1) as u64;
    assert forall|a: int, b: int| 0 <= a < b < vs.len() implies vs[a] < vs[b] by {
        lemma_values_increase(offset, d, f, a, b);
    }
    lemma_layout_bounds(u, n as u64);
    let l = ef_layout(u, n as u64);
    layout_fits_lemma(u, n as u64);
    assert forall|a: int| 0 <= a < vs.len() implies ef_high(vs, l.lower_bits, a) < l.higher_bits_length by {
        let v = vs[a];
        let lb = l.lower_bits;
        if a < n - 1 {
            assert(vs[a] < vs[n - 1]);
        }
        assert((v >> lb) <= (u >> lb)) by (bit_vector)
            requires
                v < u,
        ;
    }
}

/// The layout that `layout_of` computes fits its bounds.
proof fn layout_fits_lemma(universe: u64, len: u64)
    requires
        1 <= len <= MAX_BLOCK_LEN,
    ensures
        layout_fits(ef_layout(universe, len)),
{
    lemma_layout_bounds(universe, len);
    let l = ef_layout(universe, len);
    let zeros = (l.higher_bits_length - len) as u64;
    let pointers0 = zeros >> EF_LOG_SAMPLING0;
    let lower_bits = l.lower_bits;
    let pointer_size = l.pointer_size;
    lemma_log2_from((l.higher_bits_length - 1) as u64, 0);
    assert(pointer_size <= 64);
    assert(pointers0 == zeros / 512) by (bit_vector)
        requires
            pointers0 == zeros >> 9u64,
    ;
    assert(pointers0 * pointer_size <= 0x100_0000) by (nonlinear_arith)
        requires
            pointers0 == zeros / 512,
            zeros <= 2 * MAX_BLOCK_LEN + 2,
            pointer_size <= 64,
    ;
    assert(len * lower_bits <= MAX_BLOCK_LEN * 63) by (nonlinear_arith)
        requires
            len <= MAX_BLOCK_LEN,
            lower_bits <= 63,
    ;
}

/// Two blocks of the same length with the same encoding are the same
/// block: decoding an encoded block gives back its docids and frequencies.
pub proof fn lemma_ef_round_trip(
    offset: Option<u32>,
    d1: Seq<u32>,
    f1: Seq<u32>,
    d2: Seq<u32>,
    f2: Seq<u32>,
)
    requires
        ef_encodable(offset, d1, f1),
        ef_encodable(offset, d2, f2),
        d1.len() == d2.len(),
        ef_encoded(offset, d1, f1) == ef_encoded(offset, d2, f2),
    ensures
        d1 == d2,
        f1 == f2,
{
    let n = d1.len() as int;
    let data = ef_encoded(offset, d1, f1);
    let vs1 = ef_values(offset, d1, f1);
    let vs2 = ef_values(offset, d2, f2);
    let fb1 = ef_freq_bits(f1);
    let fb2 = ef_freq_bits(f2);
    lemma_block_highs(offset, d1, f1);
    lemma_block_highs(offset, d2, f2);
    let u1 = (vs1.last() + 1) as u64;
    let u2 = (vs2.last() + 1) as u64;
    let l1 = ef_layout(u1, n as u64);
    let l2 = ef_layout(u2, n as u64);
    let s1 = Seq::new(ef_stream_len(l1), |k: int| ef_byte(vs1, l1, k, 8));
    let s2 = Seq::new(ef_stream_len(l2), |k: int| ef_byte(vs2, l2, k, 8));
    let e2 = ef_encoded(offset, d2, f2);
    assert(data =~= le_bytes(fb1 as u64) + le_bytes(u1) + s1);
    assert(e2 =~= le_bytes(fb2 as u64) + le_bytes(u2) + s2);
    lemma_le_round_trip(fb1 as u64);
    lemma_le_round_trip(fb2 as u64);
    lemma_le_round_trip(u1);
    lemma_le_round_trip(u2);
    assert(data.subrange(0, 8) =~= le_bytes(fb1 as u64));
    assert(e2.subrange(0, 8) =~= le_bytes(fb2 as u64));
    assert(data.subrange(8, 16) =~= le_bytes(u1));
    assert(e2.subrange(8, 16) =~= le_bytes(u2));
    assert(le_value(data, 0) == le_value(le_bytes(fb1 as u64), 0));
    assert(le_value(e2, 0) == le_value(le_bytes(fb2 as u64), 0));
    assert(le_value(data, 8) == le_value(le_bytes(u1), 0));
    assert(le_value(e2, 8) == le_value(le_bytes(u2), 0));
    assert(fb1 as u64 == fb2 as u64);
    assert(u1 == u2);
    let l = l1;
    assert(l1 == l2);
    let lb = l.lower_bits;
    assert forall|k: int| 0 <= k < ef_stream_len(l) implies #[trigger] data[16 + k] == ef_byte(vs1, l, k, 8) by {
        assert(data[16 + k] == s1[k]);
    }
    assert forall|k: int| 0 <= k < ef_stream_len(l) implies #[trigger] data[16 + k] == ef_byte(vs2, l, k, 8) by {
        assert(e2[16 + k] == s2[k]);
    }
    assert(data.len() == 16 + ef_stream_len(l));
    assert(l.end <= 8 * ef_stream_len(l));
    // the high parts hold the same positions
    let h1 = Seq::new(n as nat, |i: int| ef_high(vs1, lb, i));
    let h2 = Seq::new(n as nat, |i: int| ef_high(vs2, lb, i));
    assert forall|i: int| 0 <= i < n implies h2.contains(#[trigger] h1[i]) by {
        let p = h1[i];
        let q = l.higher_bits_offset + p;
        lemma_ef_bit_at(data, vs1, l, q);
        lemma_ef_bit_at(data, vs2, l, q);
        assert(exists|m: int| 0 <= m < vs1.len() && ef_high(vs1, lb, m) == p);
        let m = choose|m: int| 0 <= m < vs2.len() && ef_high(vs2, lb, m) == p;
        assert(h2[m] == p);
    }
    assert forall|i: int| 0 <= i < n implies h1.contains(#[trigger] h2[i]) by {
        let p = h2[i];
        let q = l.higher_bits_offset + p;
        lemma_ef_bit_at(data, vs1, l, q);
        lemma_ef_bit_at(data, vs2, l, q);
        assert(exists|m: int| 0 <= m < vs2.len() && ef_high(vs2, lb, m) == p);
        let m = choose|m: int| 0 <= m < vs1.len() && ef_high(vs1, lb, m) == p;
        assert(h1[m] == p);
    }
    assert forall|i: int, j: int| 0 <= i < j < n implies h1[i] < h1[j] by {
        lemma_high_increase(vs1, lb, i, j);
    }
    assert forall|i: int, j: int| 0 <= i < j < n implies h2[i] < h2[j] by {
        lemma_high_increase(vs2, lb, i, j);
    }
    lemma_same_members(h1, h2);
    // so do the low parts, and then the values
    assert forall|i: int| 0 <= i < n implies vs1[i] == vs2[i] by {
        assert(h1[i] == h2[i]);
        let a = vs1[i];
        let b = vs2[i];
        assert((a >> lb) == (b >> lb));
        let start = 128 + l.lower_bits_offset + i * lb;
        assert(i * lb + lb <= n * lb) by (nonlinear_arith)
            requires
                i < n,
        ;
        assert forall|j: int| 0 <= j < lb implies #[trigger] bit_at(data, start + j) == ((a >> (j as u64)) & 1) as u8
            && bit_at(data, start + j) == ((b >> (j as u64)) & 1) as u8 by {
            let r = i * lb + j;
            assert(r < n * lb) by (nonlinear_arith)
                requires
                    r == i * lb + j,
                    i < n,
                    0 <= j < lb,
            ;
            assert(r / (lb as int) == i && r % (lb as int) == j) by (nonlinear_arith)
                requires
                    r == i * lb + j,
                    0 <= j < lb,
            ;
            lemma_ef_bit_at(data, vs1, l, l.lower_bits_offset + r);
            lemma_ef_bit_at(data, vs2, l, l.lower_bits_offset + r);
            assert(start + j == 128 + (l.lower_bits_offset + r));
        }
        assert forall|j: int| 0 <= j < lb implies #[trigger] bit_at(data, start + j) == ((a >> (j as u64)) & 1) as u8 by {
        }
        assert forall|j: int| 0 <= j < lb implies #[trigger] bit_at(data, start + j) == ((b >> (j as u64)) & 1) as u8 by {
        }
        lemma_bits_value64(data, start, lb as nat, a);
        lemma_bits_value64(data, start, lb as nat, b);
        assert(a == b) by (bit_vector)
            requires
                (a >> lb) == (b >> lb),
                a & (((1u64 << lb) - 1) as u64) == b & (((1u64 << lb) - 1) as u64),
                lb < 64,
        ;
    }
    // and then the entries
    let fbu = fb1 as u64;
    lemma_bits_needed(seq_max(freqs_less_one(f1)), 0);
    assert forall|i: int| 0 <= i < n implies d1[i] == d2[i] && f1[i] == f2[i] by {
        let v = vs1[i];
        let a1 = (d1[i] - ef_base(offset)) as u64;
        let a2 = (d2[i] - ef_base(offset)) as u64;
        let x1 = (f1[i] - 1) as u64;
        let x2 = (f2[i] - 1) as u64;
        let g1 = freqs_less_one(f1);
        let g2 = freqs_less_one(f2);
        lemma_bit_width(g1, i);
        lemma_bit_width(g2, i);
        let y1 = g1[i];
        let y2 = g2[i];
        assert(x1 == y1 as u64 && x2 == y2 as u64);
        assert(d1[i] >= d1[0] && d2[i] >= d2[0]);
        assert(v == (a1 << fbu) | x1);
        assert(v == (a2 << fbu) | x2);
        assert(a1 == a2 && x1 == x2) by (bit_vector)
            requires
                v == (a1 << fbu) | x1,
                v == (a2 << fbu) | x2,
                a1 < 0x1_0000_0000,
                a2 < 0x1_0000_0000,
                fbu <= 32,
                fbu < 32 ==> (y1 >> (fbu as u32)) == 0,
                fbu < 32 ==> (y2 >> (fbu as u32)) == 0,
                x1 == y1 as u64,
                x2 == y2 as u64,
        ;
    }
    assert(d1 =~= d2);
    assert(f1 =~= f2);
}

/// Decoder of blocks: holds the decoded entries and a position among them.
pub struct EliasFanoDecode {
    docids: Vec<u32>,
    freqs: Vec<u32>,
    offset: usize,
}

impl EliasFanoDecode {
    /// The decoded docids.
    pub closed spec fn docids(&self) -> Seq<u32> {
        self.docids@
    }

    /// The decoded frequencies.
    pub closed spec fn freqs(&self) -> Seq<u32> {
        self.freqs@
    }

    /// The position of the current entry.
    pub closed spec fn pos(&self) -> int {
        self.offset as int
    }

    pub closed spec fn wf(&self) -> bool {
        self.docids@.len() == self.freqs@.len()
    }

    pub fn new() -> (r: Self)
        ensures
            r.wf(),
            r.docids().len() == 0,
            r.pos() == 0,
    {
        Self { docids: Vec::new(), freqs: Vec::new(), offset: 0 }
    }

    /// Decodes the block `data` of `doc_cnt` entries after `offset`, and
    /// moves to its first entry.
    pub fn decode(&mut self, data: &[u8], offset: Option<u32>, doc_cnt: u32)
        requires
            ef_decodable(data@, offset, doc_cnt as nat),
        ensures
            final(self).wf(),
            final(self).pos() == 0,
            ef_encodable(offset, final(self).docids(), final(self).freqs()),
            final(self).docids().len() == doc_cnt,
            ef_encoded(offset, final(self).docids(), final(self).freqs()) == data@,
            forall|d: Seq<u32>, f: Seq<u32>|
                ef_encodable(offset, d, f) && d.len() == doc_cnt && data@ == ef_encoded(offset, d, f)
                    ==> final(self).docids() == d && final(self).freqs() == f,
    {
        let ghost (gd, gf) = choose|d: Seq<u32>, f: Seq<u32>|
            ef_encodable(offset, d, f) && d.len() == doc_cnt && data@ == ef_encoded(offset, d, f);
        let ghost vs = ef_values(offset, gd, gf);
        let ghost gfb = ef_freq_bits(gf);
        let n = doc_cnt as usize;
        proof {
            let fbu = gfb as u64;
            lemma_bits_needed(seq_max(freqs_less_one(gf)), 0);
            let d = (gd[n - 1] - ef_base(offset)) as u64;
            let x = (gf[n - 1] - 1) as u64;
            assert(gd[n - 1] < u32::MAX);
            assert(gd[n - 1] >= gd[0]);
            assert(((d << fbu) | x) < 0xffff_ffff_ffff_ffff) by (bit_vector)
                requires
                    d < 0xffff_ffff,
                    x <= 0xffff_ffff,
                    fbu <= 32,
            ;
            assert(vs.last() == vs[n - 1]);
        }
        let ghost gu = (vs.last() + 1) as u64;
        proof {
            lemma_bits_needed(seq_max(freqs_less_one(gf)), 0);
            lemma_le_round_trip(gfb as u64);
            lemma_le_round_trip(gu);
            assert(data@.subrange(0, 8) =~= le_bytes(gfb as u64));
            assert(data@.subrange(8, 16) =~= le_bytes(gu));
            assert(le_value(data@, 0) == le_value(le_bytes(gfb as u64), 0));
            assert(le_value(data@, 8) == le_value(le_bytes(gu), 0));
        }
        let fb64 = read_le(data, 0);
        let universe = read_le(data, 8);
        let fb = fb64 as u8;
        let l = layout_of(universe, n as u64);
        let ghost stream = Seq::new(ef_stream_len(l), |k: int| ef_byte(vs, l, k, 8));
        proof {
            assert(data@ =~= le_bytes(gfb as u64) + le_bytes(gu) + stream);
            assert forall|k: int| 0 <= k < ef_stream_len(l) implies #[trigger] data@[16 + k] == ef_byte(vs, l, k, 8) by {
                assert(data@[16 + k] == stream[k]);
            }
            assert forall|a: int, b: int| 0 <= a < b < vs.len() implies vs[a] < vs[b] by {
                lemma_values_increase(offset, gd, gf, a, b);
            }
            lemma_layout_bounds(universe, n as u64);
            assert forall|a: int| 0 <= a < vs.len() implies ef_high(vs, l.lower_bits, a)
                < l.higher_bits_length by {
                let v = vs[a];
                let lb = l.lower_bits;
                if a < n - 1 {
                    assert(vs[a] < vs[n - 1]);
                }
                assert((v >> lb) <= (universe >> lb)) by (bit_vector)
                    requires
                        v < universe,
                ;
            }
        }
        let base: u32 = match offset {
            Some(o) => {
                assert(gd[0] > o);
                o + 1
            },
            None => 0,
        };
        let lb = l.lower_bits;
        let hbo = l.higher_bits_offset;
        let lbo = l.lower_bits_offset;
        self.docids.clear();
        self.freqs.clear();
        let mut p: u64 = 0;
        let mut i: usize = 0;
        while i < n
            invariant
                n == doc_cnt,
                n == vs.len(),
                n == gd.len(),
                1 <= n <= MAX_BLOCK_LEN,
                layout_fits(l),
                l == ef_layout(universe, n as u64),
                lb == l.lower_bits,
                hbo == l.higher_bits_offset,
                lbo == l.lower_bits_offset,
                data@.len() == 16 + ef_stream_len(l),
                forall|k: int| 0 <= k < ef_stream_len(l) ==> #[trigger] data@[16 + k] == ef_byte(vs, l, k, 8),
                forall|a: int, b: int| 0 <= a < b < vs.len() ==> vs[a] < vs[b],
                forall|a: int| 0 <= a < vs.len() ==> ef_high(vs, lb, a) < l.higher_bits_length,
                vs == ef_values(offset, gd, gf),
                ef_encodable(offset, gd, gf),
                fb == ef_freq_bits(gf),
                fb <= 32,
                base == ef_base(offset),
                i <= n,
                i < n ==> p <= ef_high(vs, lb, i as int),
                i > 0 ==> ef_high(vs, lb, i - 1) < p,
                self.docids@ == gd.subrange(0, i as int),
                self.freqs@ == gf.subrange(0, i as int),
            decreases n - i,
        {
            loop
                invariant
                    i < n,
                    n == vs.len(),
                    layout_fits(l),
                    lb == l.lower_bits,
                    hbo == l.higher_bits_offset,
                    data@.len() == 16 + ef_stream_len(l),
                    forall|k: int| 0 <= k < ef_stream_len(l) ==> #[trigger] data@[16 + k] == ef_byte(vs, l, k, 8),
                    forall|a: int, b: int| 0 <= a < b < vs.len() ==> vs[a] < vs[b],
                    forall|a: int| 0 <= a < vs.len() ==> ef_high(vs, lb, a) < l.higher_bits_length,
                    p <= ef_high(vs, lb, i as int),
                    i > 0 ==> ef_high(vs, lb, i - 1) < p,
                ensures
                    p == ef_high(vs, lb, i as int),
                decreases ef_high(vs, lb, i as int) - p,
            {
                let q = 128 + hbo + p;
                proof {
                    lemma_ef_bit_at(data@, vs, l, (hbo + p) as int);
                }
                let bit = (data[(q / 8) as usize] >> ((q % 8) as u8)) & 1;
                if bit == 1 {
                    proof {
                        let m = choose|m: int| 0 <= m < vs.len() && ef_high(vs, lb, m) == p;
                        if m < i {
                            if m < i - 1 {
                                lemma_high_increase(vs, lb, m, i - 1);
                            }
                        } else if m > i {
                            lemma_high_increase(vs, lb, i as int, m);
                        }
                    }
                    break;
                }
                proof {
                    if p == ef_high(vs, lb, i as int) {
                        assert(exists|m: int| 0 <= m < vs.len() && ef_high(vs, lb, m) == p);
                    }
                }
                p += 1;
            }
            let high = p - i as u64 - 1;
            let ghost v = vs[i as int];
            proof {
                assert(high == v >> lb);
                assert forall|j: int| 0 <= j < lb implies #[trigger] bit_at(data@, (128 + lbo + i * lb) + j) == ((v >> (j as u64)) & 1) as u8 by {
                    let r = i * lb + j;
                    assert(r < n * lb) by (nonlinear_arith)
                        requires
                            r == i * lb + j,
                            i < n,
                            0 <= j < lb,
                    ;
                    assert(r / (lb as int) == i && r % (lb as int) == j) by (nonlinear_arith)
                        requires
                            r == i * lb + j,
                            0 <= j < lb,
                    ;
                    lemma_ef_bit_at(data@, vs, l, lbo + r);
                    assert((128 + lbo + i * lb) + j == 128 + (lbo + r));
                }
                assert(i * lb + lb <= n * lb) by (nonlinear_arith)
                    requires
                        i < n,
                ;
            }
            let low = read_bits(data, (128 + lbo + i as u64 * lb) as usize, lb as u8);
            proof {
                lemma_bits_value64(data@, (128 + lbo + i * lb) as int, lb as nat, v);
                assert(((high << lb) | low) == v) by (bit_vector)
                    requires
                        high == v >> lb,
                        low == v & (((1u64 << lb) - 1) as u64),
                        lb < 64,
                ;
            }
            let v_exec = (high << lb) | low;
            let ghost dd = (gd[i as int] - ef_base(offset)) as u64;
            let ghost ff = (gf[i as int] - 1) as u64;
            proof {
                let fbu = fb as u64;
                let f = freqs_less_one(gf);
                lemma_bit_width(f, i as int);
                let fi = f[i as int];
                assert(ff == fi as u64);
                assert(v == (dd << fbu) | ff);
                assert(gd[i as int] >= gd[0]);
                assert(gd[i as int] < u32::MAX);
                assert((v >> fbu) == dd && (v & (((1u64 << fbu) - 1) as u64)) == ff) by (bit_vector)
                    requires
                        v == (dd << fbu) | ff,
                        dd < 0x1_0000_0000,
                        fbu <= 32,
                        fbu < 32 ==> (fi >> (fbu as u32)) == 0,
                        ff == fi as u64,
                ;
            }
            assert((1u64 << (fb as u64)) >= 1) by (bit_vector)
                requires
                    fb <= 32,
            ;
            let docid = (v_exec >> (fb as u64)) as u32 + base;
            let freq = (v_exec & ((1u64 << (fb as u64)) - 1)) as u32 + 1;
            self.docids.push(docid);
            self.freqs.push(freq);
            p += 1;
            i += 1;
            assert(self.docids@ =~= gd.subrange(0, i as int));
            assert(self.freqs@ =~= gf.subrange(0, i as int));
            proof {
                if i < n {
                    lemma_high_increase(vs, lb, i - 1, i as int);
                }
            }
        }
        assert(self.docids@ =~= gd);
        assert(self.freqs@ =~= gf);
        self.offset = 0;
        proof {
            assert forall|d: Seq<u32>, f: Seq<u32>|
                ef_encodable(offset, d, f) && d.len() == doc_cnt && data@ == ef_encoded(offset, d, f)
                    implies self.docids@ == d && self.freqs@ == f by {
                lemma_ef_round_trip(offset, d, f, gd, gf);
            }
        }
    }

    /// Moves to the next entry; false once past the last.
    pub fn next(&mut self) -> (r: bool)
        requires
            old(self).wf(),
            old(self).pos() < old(self).docids().len(),
        ensures
            final(self).wf(),
            final(self).docids() == old(self).docids(),
            final(self).freqs() == old(self).freqs(),
            final(self).pos() == old(self).pos() + 1,
            r == (final(self).pos() < final(self).docids().len()),
    {
        let len = self.docids.len();
        self.offset += 1;
        self.offset != len
    }

    /// Moves forward to the first entry from the current one on whose docid
    /// is at least `target`; false when there is none.
    pub fn seek(&mut self, target: u32) -> (r: bool)
        requires
            old(self).wf(),
            old(self).pos() <= old(self).docids().len(),
        ensures
            final(self).wf(),
            final(self).docids() == old(self).docids(),
            final(self).freqs() == old(self).freqs(),
            old(self).pos() <= final(self).pos() <= final(self).docids().len(),
            forall|j: int|
                old(self).pos() <= j < final(self).pos() ==> final(self).docids()[j] < target,
            final(self).pos() < final(self).docids().len() ==> final(self).docids()[final(self).pos()]
                >= target,
            r == (final(self).pos() < final(self).docids().len()),
    {
        while self.offset < self.docids.len() && self.docids[self.offset] < target
            invariant
                self.wf(),
                self.docids@ == old(self).docids@,
                self.freqs@ == old(self).freqs@,
                old(self).offset <= self.offset <= self.docids@.len(),
                forall|j: int| old(self).offset <= j < self.offset ==> self.docids@[j] < target,
            decreases self.docids@.len() - self.offset,
        {
            self.offset += 1;
        }
        self.offset < self.docids.len()
    }

    /// The docid of the current entry.
    pub fn docid(&self) -> (r: u32)
        requires
            self.wf(),
            self.pos() < self.docids().len(),
        ensures
            r == self.docids()[self.pos()],
    {
        self.docids[self.offset]
    }

    /// The frequency of the current entry.
    pub fn freq(&self) -> (r: u32)
        requires
            self.wf(),
            self.pos() < self.docids().len(),
        ensures
            r == self.freqs()[self.pos()],
    {
        self.freqs[self.offset]
    }
}

}