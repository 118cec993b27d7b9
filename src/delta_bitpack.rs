//! Block codec that stores docid gaps and term frequencies bit-packed.
//!
//! Layout: one byte holding the docid bit width, one byte holding the
//! frequency bit width, then `docid[i] - prev - 1` packed at the first width,
//! then `freq[i] - 1` packed at the second. Bits are laid out least
//! significant first: bit `q` of a stream is bit `q % 8` of its byte `q / 8`.
use vstd::prelude::*;

verus! {

/// The most entries that a block handed to the codec may hold.
pub const MAX_BLOCK_LEN: usize = 0x100_0000;

/// The docid before the first one of a block: the last docid of the block
/// before it, or -1 for the first block of a list.
pub open spec fn prev_docid(offset: Option<u32>) -> int {
    match offset {
        Some(o) => o as int,
        None => -1,
    }
}

/// Docids strictly increasing, all after `offset`.
pub open spec fn increasing_after(offset: Option<u32>, docids: Seq<u32>) -> bool {
    &&& docids.len() > 0 ==> docids[0] > prev_docid(offset)
    &&& forall|i: int, j: int| 0 <= i < j < docids.len() ==> docids[i] < docids[j]
}

/// Docids strictly increasing after `offset`, with frequencies of at least one.
pub open spec fn valid_block(offset: Option<u32>, docids: Seq<u32>, freqs: Seq<u32>) -> bool {
    &&& docids.len() == freqs.len()
    &&& docids.len() <= MAX_BLOCK_LEN
    &&& forall|i: int| 0 <= i < docids.len() ==> freqs[i] >= 1
    &&& increasing_after(offset, docids)
}

/// The gap before each docid, less one.
pub open spec fn gaps(offset: Option<u32>, docids: Seq<u32>) -> Seq<u32> {
    Seq::new(
        docids.len(),
        |i: int|
            (docids[i] - (if i == 0 {
                prev_docid(offset)
            } else {
                docids[i - 1] as int
            }) - 1) as u32,
    )
}

/// Each frequency less one.
pub open spec fn freqs_less_one(freqs: Seq<u32>) -> Seq<u32> {
    Seq::new(freqs.len(), |i: int| (freqs[i] - 1) as u32)
}

/// The largest value of `s`, or 0 when it is empty.
pub open spec fn seq_max(s: Seq<u32>) -> u32
    decreases s.len(),
{
    if s.len() == 0 {
        0
    } else {
        let m = seq_max(s.drop_last());
        if m < s.last() {
            s.last()
        } else {
            m
        }
    }
}

/// The least width `w >= b` in which `x` fits.
pub open spec fn bits_needed_from(x: u32, b: u8) -> u8
    decreases 32 - b,
{
    if b >= 32 || (x >> b) == 0 {
        b
    } else {
        bits_needed_from(x, (b + 1) as u8)
    }
}

/// The number of bits in which every value of `s` fits.
pub open spec fn bit_width(s: Seq<u32>) -> u8 {
    bits_needed_from(seq_max(s), 0)
}

/// The number of bytes that `n` values of `w` bits take.
pub open spec fn packed_size(w: nat, n: nat) -> nat {
    (w * n + 7) / 8
}

/// Bit `q` of the stream that packs `vals` at `w` bits each.
pub open spec fn packed_bit(vals: Seq<u32>, w: nat, q: int) -> u8 {
    if w > 0 && 0 <= q < vals.len() * w {
        ((vals[q / (w as int)] >> ((q % (w as int)) as u32)) & 1) as u8
    } else {
        0
    }
}

/// The low `b` bits of byte `k` of the stream that packs `vals`.
pub open spec fn packed_byte(vals: Seq<u32>, w: nat, k: int, b: nat) -> u8
    decreases b,
{
    if b == 0 {
        0
    } else {
        packed_byte(vals, w, k, (b - 1) as nat) | (packed_bit(vals, w, 8 * k + b - 1) << ((b
            - 1) as u8))
    }
}

/// The bytes that pack `vals` at `w` bits each.
pub open spec fn packed(vals: Seq<u32>, w: nat) -> Seq<u8> {
    Seq::new(packed_size(w, vals.len()), |k: int| packed_byte(vals, w, k, 8))
}

/// The bytes that encode a block.
pub open spec fn encoded_block(offset: Option<u32>, docids: Seq<u32>, freqs: Seq<u32>) -> Seq<u8> {
    let g = gaps(offset, docids);
    let f = freqs_less_one(freqs);
    let gw = bit_width(g);
    let fw = bit_width(f);
    seq![gw, fw] + packed(g, gw as nat) + packed(f, fw as nat)
}

/// Bit `p` of `bytes`.
pub open spec fn bit_at(bytes: Seq<u8>, p: int) -> u8 {
    (bytes[p / 8] >> ((p % 8) as u8)) & 1
}

/// The number spelled by the `len` bits of `bytes` from bit `start` on,
/// least significant first.
pub open spec fn bits_value(bytes: Seq<u8>, start: int, len: nat) -> u64
    decreases len,
{
    if len == 0 {
        0
    } else {
        bits_value(bytes, start, (len - 1) as nat) | ((bit_at(bytes, start + len - 1) as u64) << ((
        len - 1) as u64))
    }
}

/// Whether `data` is long enough for a block of `n` entries and names widths
/// of at most 32 bits.
pub open spec fn block_readable(data: Seq<u8>, n: nat) -> bool {
    &&& data.len() >= 2
    &&& data[0] <= 32
    &&& data[1] <= 32
    &&& n <= MAX_BLOCK_LEN
    &&& data.len() >= 2 + packed_size(data[0] as nat, n) + packed_size(data[1] as nat, n)
}

/// Packed value `i` of the docid stream of `data`.
pub open spec fn gap_field(data: Seq<u8>, i: int) -> u32 {
    bits_value(data, 16 + i * data[0], data[0] as nat) as u32
}

/// Packed value `i` of the frequency stream of a block of `n` entries.
pub open spec fn freq_field(data: Seq<u8>, n: nat, i: int) -> u32 {
    bits_value(data, 16 + 8 * packed_size(data[0] as nat, n) + i * data[1], data[1] as nat) as u32
}

/// Docid `i` that a block decodes to, counting gaps modulo 2^32 from `start`.
pub open spec fn decoded_docid(data: Seq<u8>, start: u32, i: nat) -> u32
    decreases i,
{
    let prev = if i == 0 {
        start
    } else {
        decoded_docid(data, start, (i - 1) as nat)
    };
    ((prev as int + gap_field(data, i as int) as int + 1) % 0x1_0000_0000) as u32
}

/// The value that stands for the docid before the first, modulo 2^32.
pub open spec fn start_docid(offset: Option<u32>) -> u32 {
    match offset {
        Some(o) => o,
        None => 0xffff_ffff,
    }
}

/// The docids that a block of `n` entries decodes to.
pub open spec fn decoded_docids(data: Seq<u8>, offset: Option<u32>, n: nat) -> Seq<u32> {
    Seq::new(n, |i: int| decoded_docid(data, start_docid(offset), i as nat))
}

/// The frequencies that a block of `n` entries decodes to.
pub open spec fn decoded_freqs(data: Seq<u8>, n: nat) -> Seq<u32> {
    Seq::new(n, |i: int| ((freq_field(data, n, i) as int + 1) % 0x1_0000_0000) as u32)
}

/// Encoder of blocks; keeps its output buffer between blocks.
pub struct DeltaBitpackEncode {
    output: Vec<u8>,
}

impl DeltaBitpackEncode {
    pub fn new() -> Self {
        Self { output: Vec::new() }
    }

    /// Encodes a block; `offset` is the last docid of the block before, if any.
    pub fn encode(&mut self, offset: Option<u32>, docids: &[u32], freqs: &[u32]) -> (r: &[u8])
        requires
            valid_block(offset, docids@, freqs@),
        ensures
            r@ == encoded_block(offset, docids@, freqs@),
    {
        let g = gaps_of(offset, docids);
        let f = less_one(freqs);
        let gw = num_bits(g.as_slice());
        let fw = num_bits(f.as_slice());
        self.output.clear();
        self.output.push(gw);
        self.output.push(fw);
        compress(g.as_slice(), gw, &mut self.output);
        compress(f.as_slice(), fw, &mut self.output);
        proof {
            assert(g@ =~= gaps(offset, docids@));
            assert(f@ =~= freqs_less_one(freqs@));
            assert(self.output@ =~= encoded_block(offset, docids@, freqs@));
        }
        self.output.as_slice()
    }
}

/// The gaps of a block, less one.
fn gaps_of(offset: Option<u32>, docids: &[u32]) -> (r: Vec<u32>)
    requires
        increasing_after(offset, docids@),
    ensures
        r@ == gaps(offset, docids@),
{
    let mut r: Vec<u32> = Vec::new();
    let mut i: usize = 0;
    while i < docids.len()
        invariant
            i <= docids.len(),
            increasing_after(offset, docids@),
            r@ == gaps(offset, docids@).subrange(0, i as int),
        decreases docids.len() - i,
    {
        let v = docids[i];
        assert(i > 0 ==> docids@[i - 1] < docids@[i as int]);
        let d: u32 = if i == 0 {
            match offset {
                Some(o) => v - o - 1,
                None => v,
            }
        } else {
            v - docids[i - 1] - 1
        };
        r.push(d);
        i += 1;
        assert(r@ =~= gaps(offset, docids@).subrange(0, i as int));
    }
    assert(r@ =~= gaps(offset, docids@));
    r
}

/// Each frequency less one.
pub(crate) fn less_one(freqs: &[u32]) -> (r: Vec<u32>)
    requires
        forall|i: int| 0 <= i < freqs@.len() ==> freqs@[i] >= 1,
    ensures
        r@ == freqs_less_one(freqs@),
{
    let mut r: Vec<u32> = Vec::new();
    let mut i: usize = 0;
    while i < freqs.len()
        invariant
            i <= freqs.len(),
            forall|j: int| 0 <= j < freqs@.len() ==> freqs@[j] >= 1,
            r@ == freqs_less_one(freqs@).subrange(0, i as int),
        decreases freqs.len() - i,
    {
        r.push(freqs[i] - 1);
        i += 1;
        assert(r@ =~= freqs_less_one(freqs@).subrange(0, i as int));
    }
    assert(r@ =~= freqs_less_one(freqs@));
    r
}

/// The number of bits in which every value fits.
pub(crate) fn num_bits(values: &[u32]) -> (r: u8)
    ensures
        r == bit_width(values@),
        r <= 32,
{
    let mut max: u32 = 0;
    let mut i: usize = 0;
    while i < values.len()
        invariant
            i <= values.len(),
            max == seq_max(values@.subrange(0, i as int)),
        decreases values.len() - i,
    {
        assert(values@.subrange(0, i as int + 1).drop_last() =~= values@.subrange(0, i as int));
        if max < values[i] {
            max = values[i];
        }
        i += 1;
    }
    assert(values@.subrange(0, i as int) =~= values@);
    let mut b: u8 = 0;
    while b < 32 && (max >> b) != 0
        invariant
            b <= 32,
            bits_needed_from(max, b) == bits_needed_from(max, 0),
        decreases 32 - b,
    {
        b += 1;
    }
    b
}

/// Appends the bytes that pack `values` at `bit_width` bits each.
fn compress(values: &[u32], bit_width: u8, out: &mut Vec<u8>)
    requires
        bit_width <= 32,
        values@.len() <= MAX_BLOCK_LEN,
    ensures
        final(out)@ == old(out)@ + packed(values@, bit_width as nat),
{
    let n = values.len();
    let w = bit_width as usize;
    proof {
        assert(w * n <= 32 * MAX_BLOCK_LEN) by (nonlinear_arith)
            requires
                w <= 32,
                n <= MAX_BLOCK_LEN,
        ;
    }
    let total: usize = w * n;
    let size: usize = (total + 7) / 8;
    let ghost p = packed(values@, bit_width as nat);
    let mut k: usize = 0;
    while k < size
        invariant
            k <= size,
            n == values@.len(),
            n <= MAX_BLOCK_LEN,
            w == bit_width,
            w <= 32,
            total == w * n,
            total <= 32 * MAX_BLOCK_LEN,
            size == packed_size(w as nat, n as nat),
            p == packed(values@, bit_width as nat),
            out@ == old(out)@ + p.subrange(0, k as int),
        decreases size - k,
    {
        let mut byte: u8 = 0;
        let mut b: u8 = 0;
        while b < 8
            invariant
                b <= 8,
                k < size,
                n == values@.len(),
                w == bit_width,
                w <= 32,
                total == w * n,
                size == packed_size(w as nat, n as nat),
                total <= 32 * MAX_BLOCK_LEN,
                byte == packed_byte(values@, w as nat, k as int, b as nat),
            decreases 8 - b,
        {
            let q: usize = 8 * k + b as usize;
            let bit: u8 = if w > 0 && q < total {
                proof {
                    assert(q / w < n) by (nonlinear_arith)
                        requires
                            q < w * n,
                            w > 0,
                    ;
                }
                #[verifier::truncate]
                (((values[q / w] >> ((q % w) as u32)) & 1) as u8)
            } else {
                0
            };
            byte = byte | (bit << b);
            b += 1;
        }
        out.push(byte);
        k += 1;
        assert(out@ =~= old(out)@ + p.subrange(0, k as int));
    }
    assert(p.subrange(0, size as int) =~= p);
}

/// The `len` bits of `data` from bit `start` on, least significant first.
pub(crate) fn read_bits(data: &[u8], start: usize, len: u8) -> (r: u64)
    requires
        len <= 64,
        start + len <= 8 * data@.len(),
        start + len <= usize::MAX,
    ensures
        r == bits_value(data@, start as int, len as nat),
{
    let mut acc: u64 = 0;
    let mut j: u8 = 0;
    while j < len
        invariant
            j <= len,
            len <= 64,
            start + len <= 8 * data@.len(),
            start + len <= usize::MAX,
            acc == bits_value(data@, start as int, j as nat),
        decreases len - j,
    {
        let q: usize = start + j as usize;
        let bit: u8 = (data[q / 8] >> ((q % 8) as u8)) & 1;
        acc = acc | ((bit as u64) << (j as u64));
        j += 1;
    }
    acc
}

/// Decoder of blocks: holds the decoded entries and a position among them.
pub struct DeltaBitpackDecode {
    docids: Vec<u32>,
    freqs: Vec<u32>,
    offset: usize,
}

impl DeltaBitpackDecode {
    /// The decoded docids.
    pub closed spec fn docids(&self) -> Seq<u32> {
        self.docids@
    }

    /// The decoded frequencies.
    pub closed spec fn freqs(&self) -> Seq<u32> {
        self.freqs@
    }

    /// The position of the current entry.
    pub closed spec fn pos(&self) -> int {
        self.offset as int
    }

    pub closed spec fn wf(&self) -> bool {
        self.docids@.len() == self.freqs@.len()
    }

    pub fn new() -> (r: Self)
        ensures
            r.wf(),
            r.docids().len() == 0,
            r.pos() == 0,
    {
        Self { docids: Vec::new(), freqs: Vec::new(), offset: 0 }
    }

    /// Decodes a block of `doc_cnt` entries; `offset` is the last docid of
    /// the block before, if any. The position is set to the first entry.
    pub fn decode(&mut self, data: &[u8], offset: Option<u32>, doc_cnt: u32)
        requires
            block_readable(data@, doc_cnt as nat),
        ensures
            final(self).wf(),
            final(self).docids() == decoded_docids(data@, offset, doc_cnt as nat),
            final(self).freqs() == decoded_freqs(data@, doc_cnt as nat),
            final(self).pos() == 0,
    {
        let n = doc_cnt as usize;
        let gw = data[0];
        let fw = data[1];
        proof {
            assert(gw as usize * n <= 32 * MAX_BLOCK_LEN) by (nonlinear_arith)
                requires
                    gw <= 32,
                    n <= MAX_BLOCK_LEN,
            ;
            assert(8 * packed_size(gw as nat, n as nat) <= 32 * MAX_BLOCK_LEN + 8) by (
            nonlinear_arith)
                requires
                    gw <= 32,
                    n <= MAX_BLOCK_LEN,
            ;
        }
        let gsize: usize = (gw as usize * n + 7) / 8;
        let fbase: usize = 16 + 8 * gsize;
        let ghost start = start_docid(offset);
        let mut prev: u32 = match offset {
            Some(o) => o,
            None => 0xffff_ffff,
        };
        self.docids.clear();
        self.freqs.clear();
        let mut i: usize = 0;
        while i < n
            invariant
                i <= n,
                n == doc_cnt,
                block_readable(data@, doc_cnt as nat),
                gw == data@[0],
                fw == data@[1],
                gsize == packed_size(gw as nat, n as nat),
                fbase == 16 + 8 * gsize,
                start == start_docid(offset),
                self.docids@ == decoded_docids(data@, offset, doc_cnt as nat).subrange(0, i as int),
                self.freqs@ == decoded_freqs(data@, doc_cnt as nat).subrange(0, i as int),
                i > 0 ==> prev == decoded_docid(data@, start, (i - 1) as nat),
                i == 0 ==> prev == start,
            decreases n - i,
        {
            proof {
                lemma_field_in_range(gw as nat, n as nat, i as nat);
                lemma_field_in_range(fw as nat, n as nat, i as nat);
            }
            #[verifier::truncate]
            let g = read_bits(data, 16 + i * gw as usize, gw) as u32;
            #[verifier::truncate]
            let f = read_bits(data, fbase + i * fw as usize, fw) as u32;
            let d: u32 = ((prev as u64 + g as u64 + 1) % 0x1_0000_0000) as u32;
            self.docids.push(d);
            self.freqs.push(((f as u64 + 1) % 0x1_0000_0000) as u32);
            prev = d;
            i += 1;
            assert(self.docids@ =~= decoded_docids(data@, offset, doc_cnt as nat).subrange(
                0,
                i as int,
            ));
            assert(self.freqs@ =~= decoded_freqs(data@, doc_cnt as nat).subrange(0, i as int));
        }
        assert(self.docids@ =~= decoded_docids(data@, offset, doc_cnt as nat));
        assert(self.freqs@ =~= decoded_freqs(data@, doc_cnt as nat));
        self.offset = 0;
    }

    /// Moves to the next entry; false once past the last.
    pub fn next(&mut self) -> (r: bool)
        requires
            old(self).wf(),
            old(self).pos() < old(self).docids().len(),
        ensures
            final(self).wf(),
            final(self).docids() == old(self).docids(),
            final(self).freqs() == old(self).freqs(),
            final(self).pos() == old(self).pos() + 1,
            r == (final(self).pos() < final(self).docids().len()),
    {
        let len = self.docids.len();
        self.offset += 1;
        if self.offset == len {
            return false;
        }
        true
    }

    /// Moves forward to the first entry from the current one on whose docid
    /// is at least `target`; false when there is none.
    pub fn seek(&mut self, target: u32) -> (r: bool)
        requires
            old(self).wf(),
            old(self).pos() <= old(self).docids().len(),
        ensures
            final(self).wf(),
            final(self).docids() == old(self).docids(),
            final(self).freqs() == old(self).freqs(),
            old(self).pos() <= final(self).pos() <= final(self).docids().len(),
            forall|j: int|
                old(self).pos() <= j < final(self).pos() ==> final(self).docids()[j] < target,
            final(self).pos() < final(self).docids().len() ==> final(self).docids()[final(self).pos()]
                >= target,
            r == (final(self).pos() < final(self).docids().len()),
    {
        while self.offset < self.docids.len() && self.docids[self.offset] < target
            invariant
                self.wf(),
                self.docids@ == old(self).docids@,
                self.freqs@ == old(self).freqs@,
                old(self).offset <= self.offset <= self.docids@.len(),
                forall|j: int| old(self).offset <= j < self.offset ==> self.docids@[j] < target,
            decreases self.docids@.len() - self.offset,
        {
            self.offset += 1;
        }
        self.offset < self.docids.len()
    }

    /// The docid of the current entry.
    pub fn docid(&self) -> (r: u32)
        requires
            self.wf(),
            self.pos() < self.docids().len(),
        ensures
            r == self.docids()[self.pos()],
    {
        self.docids[self.offset]
    }

    /// The frequency of the current entry.
    pub fn freq(&self) -> (r: u32)
        requires
            self.wf(),
            self.pos() < self.docids().len(),
        ensures
            r == self.freqs()[self.pos()],
    {
        self.freqs[self.offset]
    }
}

/// Field `i` of `n` fields of `w` bits lies within the packed bytes.
proof fn lemma_field_in_range(w: nat, n: nat, i: nat)
    requires
        i < n,
        w <= 32,
        n <= MAX_BLOCK_LEN,
    ensures
        i * w + w <= 8 * packed_size(w, n),
        i * w + w <= 32 * MAX_BLOCK_LEN,
        8 * packed_size(w, n) <= 32 * MAX_BLOCK_LEN + 8,
{
    assert(n * w <= 8 * ((w * n + 7) / 8)) by (nonlinear_arith);
    assert(i * w + w <= n * w) by (nonlinear_arith)
        requires
            i < n,
    ;
    assert(n * w <= 32 * MAX_BLOCK_LEN) by (nonlinear_arith)
        requires
            n <= MAX_BLOCK_LEN,
            w <= 32,
    ;
}


pub(crate) proof fn lemma_bits_needed(x: u32, b: u8)
    requires
        b <= 32,
    ensures
        b <= bits_needed_from(x, b) <= 32,
        bits_needed_from(x, b) < 32 ==> (x >> bits_needed_from(x, b)) == 0,
    decreases 32 - b,
{
    if !(b >= 32 || (x >> b) == 0) {
        lemma_bits_needed(x, (b + 1) as u8);
    }
}

proof fn lemma_seq_max(s: Seq<u32>, i: int)
    requires
        0 <= i < s.len(),
    ensures
        s[i] <= seq_max(s),
    decreases s.len(),
{
    if i < s.len() - 1 {
        lemma_seq_max(s.drop_last(), i);
    }
}

/// Every value of `s` fits in `bit_width(s)` bits.
pub(crate) proof fn lemma_bit_width(s: Seq<u32>, i: int)
    requires
        0 <= i < s.len(),
    ensures
        bit_width(s) <= 32,
        bit_width(s) < 32 ==> (s[i] >> bit_width(s)) == 0,
{
    lemma_seq_max(s, i);
    lemma_bits_needed(seq_max(s), 0);
    let w = bit_width(s);
    let m = seq_max(s);
    let v = s[i];
    if w < 32 {
        assert((v >> w) == 0) by (bit_vector)
            requires
                v <= m,
                (m >> w) == 0,
                w < 32,
        ;
    }
}

pub(crate) proof fn lemma_byte_bits(b0: u8, b1: u8, b2: u8, b3: u8, b4: u8, b5: u8, b6: u8, b7: u8, x: u8)
    requires
        b0 <= 1 && b1 <= 1 && b2 <= 1 && b3 <= 1,
        b4 <= 1 && b5 <= 1 && b6 <= 1 && b7 <= 1,
        x == 0u8 | (b0 << 0u8) | (b1 << 1u8) | (b2 << 2u8) | (b3 << 3u8) | (b4 << 4u8) | (b5 << 5u8)
            | (b6 << 6u8) | (b7 << 7u8),
    ensures
        (x >> 0u8) & 1 == b0,
        (x >> 1u8) & 1 == b1,
        (x >> 2u8) & 1 == b2,
        (x >> 3u8) & 1 == b3,
        (x >> 4u8) & 1 == b4,
        (x >> 5u8) & 1 == b5,
        (x >> 6u8) & 1 == b6,
        (x >> 7u8) & 1 == b7,
{
    assert(
        (x >> 0u8) & 1 == b0 && (x >> 1u8) & 1 == b1 && (x >> 2u8) & 1 == b2 && (x >> 3u8) & 1 == b3
            && (x >> 4u8) & 1 == b4 && (x >> 5u8) & 1 == b5 && (x >> 6u8) & 1 == b6 && (x >> 7u8) & 1
            == b7
    ) by (bit_vector)
        requires
            b0 <= 1 && b1 <= 1 && b2 <= 1 && b3 <= 1,
            b4 <= 1 && b5 <= 1 && b6 <= 1 && b7 <= 1,
            x == 0u8 | (b0 << 0u8) | (b1 << 1u8) | (b2 << 2u8) | (b3 << 3u8) | (b4 << 4u8) | (b5
                << 5u8) | (b6 << 6u8) | (b7 << 7u8),
    ;
}

proof fn lemma_packed_bit_is_bit(vals: Seq<u32>, w: nat, q: int)
    ensures
        packed_bit(vals, w, q) <= 1,
{
    if w > 0 && 0 <= q < vals.len() * w {
        let v = vals[q / (w as int)];
        let j = (q % (w as int)) as u32;
        assert(((v >> j) & 1) as u8 <= 1) by (bit_vector);
    }
}

/// Bit `q` of the packed bytes is packed bit `q`.
proof fn lemma_packed_bit_at(vals: Seq<u32>, w: nat, q: int)
    requires
        0 <= q < 8 * packed(vals, w).len(),
    ensures
        bit_at(packed(vals, w), q) == packed_bit(vals, w, q),
{
    let k = q / 8;
    let c = q % 8;
    reveal_with_fuel(packed_byte, 9);
    let b0 = packed_bit(vals, w, 8 * k);
    let b1 = packed_bit(vals, w, 8 * k + 1);
    let b2 = packed_bit(vals, w, 8 * k + 2);
    let b3 = packed_bit(vals, w, 8 * k + 3);
    let b4 = packed_bit(vals, w, 8 * k + 4);
    let b5 = packed_bit(vals, w, 8 * k + 5);
    let b6 = packed_bit(vals, w, 8 * k + 6);
    let b7 = packed_bit(vals, w, 8 * k + 7);
    lemma_packed_bit_is_bit(vals, w, 8 * k);
    lemma_packed_bit_is_bit(vals, w, 8 * k + 1);
    lemma_packed_bit_is_bit(vals, w, 8 * k + 2);
    lemma_packed_bit_is_bit(vals, w, 8 * k + 3);
    lemma_packed_bit_is_bit(vals, w, 8 * k + 4);
    lemma_packed_bit_is_bit(vals, w, 8 * k + 5);
    lemma_packed_bit_is_bit(vals, w, 8 * k + 6);
    lemma_packed_bit_is_bit(vals, w, 8 * k + 7);
    let x = packed(vals, w)[k];
    assert(x == packed_byte(vals, w, k, 8));
    lemma_byte_bits(b0, b1, b2, b3, b4, b5, b6, b7, x);
}

/// Packed bit `i * w + j` is bit `j` of value `i`.
proof fn lemma_packed_bit_field(vals: Seq<u32>, w: nat, i: int, j: int)
    requires
        0 <= i < vals.len(),
        0 <= j < w,
    ensures
        packed_bit(vals, w, i * w + j) == ((vals[i] >> (j as u32)) & 1) as u8,
{
    assert((i * w + j) / (w as int) == i && (i * w + j) % (w as int) == j) by (nonlinear_arith)
        requires
            0 <= j < w,
    ;
    assert(i * w + j < vals.len() * w) by (nonlinear_arith)
        requires
            0 <= i < vals.len(),
            0 <= j < w,
    ;
}

/// Reading `len` bits that spell the low bits of `v` gives those bits.
proof fn lemma_bits_value(bytes: Seq<u8>, start: int, len: nat, v: u32)
    requires
        len <= 32,
        forall|j: int| 0 <= j < len ==> #[trigger] bit_at(bytes, start + j) == ((v >> (j as u32)) & 1) as u8,
    ensures
        bits_value(bytes, start, len) == (v as u64) & (((1u64 << (len as u64)) - 1) as u64),
    decreases len,
{
    if len == 0 {
        assert((v as u64) & (((1u64 << 0u64) - 1) as u64) == 0) by (bit_vector);
    } else {
        let l = (len - 1) as u64;
        lemma_bits_value(bytes, start, (len - 1) as nat, v);
        let b = bit_at(bytes, start + l);
        assert(b == ((v >> (l as u32)) & 1) as u8);
        assert(((v as u64) & (((1u64 << l) - 1) as u64)) | ((b as u64) << l) == (v as u64) & (((1u64
            << (l + 1)) - 1) as u64)) by (bit_vector)
            requires
                l < 32,
                b == ((v >> (l as u32)) & 1) as u8,
        ;
    }
}

/// A value that fits in `w` bits is read back whole.
proof fn lemma_low_bits_whole(v: u32, w: u8)
    requires
        w <= 32,
        w < 32 ==> (v >> w) == 0,
    ensures
        ((v as u64) & (((1u64 << (w as u64)) - 1) as u64)) as u32 == v,
{
    assert(((v as u64) & (((1u64 << (w as u64)) - 1) as u64)) as u32 == v) by (bit_vector)
        requires
            w <= 32,
            w < 32 ==> (v >> w) == 0,
    ;
}

/// Each value packed at its width into `data` from bit `base` on reads back.
proof fn lemma_stream_reads_back(data: Seq<u8>, base: int, vals: Seq<u32>, i: int)
    requires
        0 <= i < vals.len(),
        vals.len() <= MAX_BLOCK_LEN,
        base % 8 == 0,
        base >= 0,
        base / 8 + packed(vals, bit_width(vals) as nat).len() <= data.len(),
        forall|k: int|
            0 <= k < packed(vals, bit_width(vals) as nat).len() ==> data[base / 8 + k] == packed(
                vals,
                bit_width(vals) as nat,
            )[k],
    ensures
        bits_value(data, base + i * bit_width(vals), bit_width(vals) as nat) as u32 == vals[i],
{
    let w = bit_width(vals);
    let p = packed(vals, w as nat);
    lemma_bit_width(vals, i);
    assert forall|j: int| 0 <= j < w implies #[trigger] bit_at(data, base + i * w + j) == ((vals[i]
        >> (j as u32)) & 1) as u8 by {
        let q = i * w + j;
        lemma_field_in_range(w as nat, vals.len(), i as nat);
        assert(q < i * w + w);
        assert((base + q) / 8 == base / 8 + q / 8 && (base + q) % 8 == q % 8) by (nonlinear_arith)
            requires
                base % 8 == 0,
                base >= 0,
                q >= 0,
        ;
        lemma_packed_bit_at(vals, w as nat, q);
        lemma_packed_bit_field(vals, w as nat, i, j);
    }
    assert forall|j: int| 0 <= j < w implies #[trigger] bit_at(data, (base + i * w) + j) == ((
    vals[i] >> (j as u32)) & 1) as u8 by {
        assert(base + i * w + j == (base + i * w) + j);
    }
    lemma_bits_value(data, base + i * w, w as nat, vals[i]);
    lemma_low_bits_whole(vals[i], w);
}

proof fn lemma_decoded_docid(
    data: Seq<u8>,
    offset: Option<u32>,
    docids: Seq<u32>,
    g: Seq<u32>,
    i: nat,
)
    requires
        increasing_after(offset, docids),
        g == gaps(offset, docids),
        i < docids.len(),
        forall|k: int| 0 <= k < docids.len() ==> #[trigger] gap_field(data, k) == g[k],
    ensures
        decoded_docid(data, start_docid(offset), i) == docids[i as int],
    decreases i,
{
    if i > 0 {
        lemma_decoded_docid(data, offset, docids, g, (i - 1) as nat);
        assert(docids[i - 1] < docids[i as int]);
    }
    assert(gap_field(data, i as int) == g[i as int]);
}

/// Decoding an encoded block gives back its docids and frequencies.
#[verifier::spinoff_prover]
#[verifier::rlimit(60)]
pub proof fn lemma_round_trip(offset: Option<u32>, docids: Seq<u32>, freqs: Seq<u32>)
    requires
        valid_block(offset, docids, freqs),
    ensures
        block_readable(encoded_block(offset, docids, freqs), docids.len()),
        decoded_docids(encoded_block(offset, docids, freqs), offset, docids.len()) == docids,
        decoded_freqs(encoded_block(offset, docids, freqs), docids.len()) == freqs,
{
    let n = docids.len();
    let g = gaps(offset, docids);
    let f = freqs_less_one(freqs);
    let gw = bit_width(g);
    let fw = bit_width(f);
    let pg = packed(g, gw as nat);
    let pf = packed(f, fw as nat);
    let data = encoded_block(offset, docids, freqs);
    lemma_bits_needed(seq_max(g), 0);
    lemma_bits_needed(seq_max(f), 0);
    assert(data.len() == 2 + pg.len() + pf.len());
    assert(data[0] == gw && data[1] == fw);
    assert forall|k: int| 0 <= k < pg.len() implies data[16int / 8 + k] == pg[k] by {
        assert(data[2 + k] == pg[k]);
    }
    let fbase: int = 16 + 8 * packed_size(gw as nat, n) as int;
    assert(fbase % 8 == 0 && fbase / 8 == 2 + pg.len());
    assert forall|k: int| 0 <= k < pf.len() implies data[fbase / 8 + k] == pf[k] by {
        assert(data[2 + pg.len() + k] == pf[k]);
    }
    assert forall|k: int| 0 <= k < n implies #[trigger] gap_field(data, k) == g[k] by {
        lemma_stream_reads_back(data, 16, g, k);
    }
    assert forall|k: int| 0 <= k < n implies #[trigger] freq_field(data, n, k) == f[k] by {
        lemma_stream_reads_back(data, fbase, f, k);
    }
    assert forall|k: int| 0 <= k < n implies decoded_docids(data, offset, n)[k] == docids[k] by {
        lemma_decoded_docid(data, offset, docids, g, k as nat);
    }
    assert(decoded_docids(data, offset, n) =~= docids);
    assert forall|k: int| 0 <= k < n implies decoded_freqs(data, n)[k] == freqs[k] by {
        assert(freq_field(data, n, k) == f[k]);
    }
    assert(decoded_freqs(data, n) =~= freqs);
}


/// On strictly increasing docids, a seek from `from` that stops at `to`
/// lands on the smallest docid at least `target` from `from` on, and runs
/// off the end exactly when every docid from `from` on is below `target`.
pub proof fn lemma_seek_smallest(docids: Seq<u32>, from: int, to: int, target: u32)
    requires
        forall|i: int, j: int| 0 <= i < j < docids.len() ==> docids[i] < docids[j],
        0 <= from <= to <= docids.len(),
        forall|j: int| from <= j < to ==> docids[j] < target,
        to < docids.len() ==> docids[to] >= target,
    ensures
        to < docids.len() ==> forall|j: int|
            from <= j < docids.len() && docids[j] >= target ==> docids[to] <= docids[j],
        to == docids.len() <==> forall|j: int| from <= j < docids.len() ==> docids[j] < target,
{
    if to < docids.len() {
        assert forall|j: int| from <= j < docids.len() && docids[j] >= target implies docids[to]
            <= docids[j] by {
            if j < to {
                assert(docids[j] < target);
            } else if j > to {
                assert(docids[to] < docids[j]);
            }
        }
    }
}

}
