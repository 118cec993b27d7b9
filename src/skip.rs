//! Per-block skip records and the fixed block layout of a posting list.
use vstd::prelude::*;

verus! {

/// The number of entries of a full block.
pub const COMPRESSION_BLOCK_SIZE: usize = 128;

/// Flag bit: the block is the final, partial one of its list.
pub const UNFULLED: u8 = 1;

/// Flag bit: the block starts on a new data page.
pub const PAGE_CHANGED: u8 = 2;

/// The bytes that a full block of 32-bit values packed at `num_bits` takes.
pub fn compressed_block_size(num_bits: u8) -> (r: usize)
    ensures
        r == num_bits as nat * COMPRESSION_BLOCK_SIZE / 8,
{
    (num_bits as usize) * COMPRESSION_BLOCK_SIZE / 8
}

/// Skip information of one block: enough to bound its scores and to find it
/// without decoding it.
#[derive(Clone, Copy, Debug)]
pub struct SkipBlock {
    pub last_doc: u32,
    pub blockwand_tf: u32,
    pub docid_bits: u8,
    pub tf_bits: u8,
    pub blockwand_fieldnorm_id: u8,
    pub flag: u8,
}

impl SkipBlock {
    pub open spec fn is_unfulled(&self) -> bool {
        self.flag & UNFULLED != 0
    }

    /// The size in bytes of the encoded block. A full block stores its two
    /// bit widths; the partial block stores its size in those two bytes
    /// instead, high byte first.
    pub fn block_size(&self) -> (r: usize)
        ensures
            !self.is_unfulled() ==> r == (self.docid_bits as nat + self.tf_bits as nat)
                * COMPRESSION_BLOCK_SIZE / 8,
            self.is_unfulled() ==> r == self.docid_bits as nat * 256 + self.tf_bits as nat,
    {
        if self.flag & UNFULLED == 0 {
            compressed_block_size(self.docid_bits) + compressed_block_size(self.tf_bits)
        } else {
            let hi = self.docid_bits as usize;
            let lo = self.tf_bits as usize;
            assert((hi << 8usize) | lo == hi * 256 + lo) by (bit_vector)
                requires
                    hi < 256,
                    lo < 256,
            ;
            (hi << 8usize) | lo
        }
    }
}

/// The last position of block `i` when `n` entries are cut into blocks of
/// `block_size`: every block is full but the last, which ends at `n - 1`.
pub open spec fn fixed_boundary(n: int, block_size: int, i: int) -> int {
    if (i + 1) * block_size <= n {
        (i + 1) * block_size - 1
    } else {
        n - 1
    }
}

/// The last position of each block when `doc_cnt` postings are cut into
/// blocks of `block_size`: `block_size - 1`, `2 block_size - 1`, ..., and
/// `doc_cnt - 1` for the last block, full or not.
pub fn fixed_partitions(doc_cnt: usize, block_size: u32) -> (r: Vec<u32>)
    requires
        block_size > 0,
        doc_cnt <= u32::MAX,
    ensures
        r@.len() == (doc_cnt + block_size - 1) as nat / (block_size as nat),
        forall|i: int|
            0 <= i < r@.len() ==> r@[i] == fixed_boundary(doc_cnt as int, block_size as int, i),
        forall|i: int| 0 <= i < r@.len() ==> i * block_size <= #[trigger] r@[i] < doc_cnt,
        doc_cnt > 0 ==> r@.last() == doc_cnt - 1,
{
    let n = doc_cnt as u64;
    let bs = block_size as u64;
    let cnt = (n + bs - 1) / bs;
    let mut r: Vec<u32> = Vec::new();
    let mut i: u64 = 0;
    while i < cnt
        invariant
            i <= cnt,
            n == doc_cnt,
            bs == block_size,
            cnt == (n + bs - 1) as nat / (bs as nat),
            bs > 0,
            n <= u32::MAX,
            r@.len() == i,
            forall|j: int|
                0 <= j < i ==> r@[j] == fixed_boundary(doc_cnt as int, block_size as int, j),
            forall|j: int| 0 <= j < i ==> j * block_size <= #[trigger] r@[j] < doc_cnt,
        decreases cnt - i,
    {
        proof {
            assert(i * bs < n) by (nonlinear_arith)
                requires
                    i < (n + bs - 1) as nat / (bs as nat),
                    bs > 0,
            ;
            assert((i + 1) * bs <= n + bs && (i + 1) * bs == i * bs + bs) by (nonlinear_arith)
                requires
                    i * bs < n,
            ;
        }
        let end = (i + 1) * bs;
        let last: u64 = if end <= n {
            end - 1
        } else {
            n - 1
        };
        assert(i * bs <= last < n);
        r.push(last as u32);
        i += 1;
    }
    proof {
        if doc_cnt > 0 {
            assert(cnt > 0) by (nonlinear_arith)
                requires
                    cnt == (n + bs - 1) as nat / (bs as nat),
                    n > 0,
                    bs > 0,
            ;
            let k = cnt - 1;
            assert((k + 1) * bs >= n) by (nonlinear_arith)
                requires
                    cnt == (n + bs - 1) as nat / (bs as nat),
                    k == cnt - 1,
                    bs > 0,
            ;
            assert(r@[k as int] == fixed_boundary(doc_cnt as int, block_size as int, k as int));
        }
    }
    r
}

}
