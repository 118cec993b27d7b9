//! Block boundaries of a posting list and the entry of each block that
//! bounds its scores.
//!
//! Scores come in as `u32` keys that order as the scores do; the entry
//! kept for a block is its last one with the largest key.
use crate::skip::{fixed_boundary, fixed_partitions};
use vstd::prelude::*;

verus! {

/// `r` is the last position of `keys[start..=end]` holding its largest key.
pub open spec fn is_last_max(keys: Seq<u32>, start: int, end: int, r: int) -> bool {
    &&& start <= r <= end
    &&& forall|j: int| start <= j <= end ==> keys[j] <= keys[r]
    &&& forall|j: int| r < j <= end ==> keys[j] < keys[r]
}

/// Block `i` of `partitions` starts after the end of block `i - 1`.
pub open spec fn block_start(partitions: Seq<u32>, i: int) -> int {
    if i == 0 {
        0
    } else {
        partitions[i - 1] + 1
    }
}

/// Block ends strictly increase and stay within `n` entries.
pub open spec fn boundaries_ok(partitions: Seq<u32>, n: int) -> bool {
    &&& forall|i: int, j: int| 0 <= i < j < partitions.len() ==> partitions[i] < partitions[j]
    &&& forall|i: int| 0 <= i < partitions.len() ==> partitions[i] < n
}

/// The last position of the largest key of `keys[start..=end]`.
pub fn argmax_last(keys: &[u32], start: usize, end: usize) -> (r: usize)
    requires
        start <= end < keys@.len(),
    ensures
        is_last_max(keys@, start as int, end as int, r as int),
{
    let n = keys.len();
    assert(end < n);
    let mut r = start;
    let mut j = start + 1;
    while j <= end
        invariant
            start <= r < j <= end + 1,
            end < keys@.len(),
            is_last_max(keys@, start as int, j - 1, r as int),
        decreases end + 1 - j,
    {
        if keys[j] >= keys[r] {
            r = j;
        }
        j += 1;
    }
    r
}

/// For each block, the position of its last largest key.
pub fn max_docs(keys: &[u32], partitions: &[u32]) -> (r: Vec<u32>)
    requires
        boundaries_ok(partitions@, keys@.len() as int),
    ensures
        r@.len() == partitions@.len(),
        forall|i: int|
            0 <= i < r@.len() ==> is_last_max(
                keys@,
                block_start(partitions@, i),
                partitions@[i] as int,
                #[trigger] r@[i] as int,
            ),
{
    let mut r: Vec<u32> = Vec::new();
    let mut i: usize = 0;
    while i < partitions.len()
        invariant
            boundaries_ok(partitions@, keys@.len() as int),
            i <= partitions@.len(),
            r@.len() == i,
            forall|k: int|
                0 <= k < i ==> is_last_max(
                    keys@,
                    block_start(partitions@, k),
                    partitions@[k] as int,
                    #[trigger] r@[k] as int,
                ),
        decreases partitions@.len() - i,
    {
        let start: usize = if i == 0 {
            0
        } else {
            assert(partitions@[i - 1] < partitions@[i as int]);
            partitions[i - 1] as usize + 1
        };
        let m = argmax_last(keys, start, partitions[i] as usize);
        r.push(m as u32);
        i += 1;
    }
    r
}

/// Blocks of a fixed size; the last block holds what is left and may be
/// shorter.
pub struct FixedBlockPartition {
    block_size: u32,
    scores: Vec<u32>,
    partitions: Vec<u32>,
    max_doc: Vec<u32>,
}

impl FixedBlockPartition {
    pub closed spec fn spec_block_size(&self) -> u32 {
        self.block_size
    }

    pub closed spec fn spec_scores(&self) -> Seq<u32> {
        self.scores@
    }

    pub closed spec fn spec_partitions(&self) -> Seq<u32> {
        self.partitions@
    }

    pub closed spec fn spec_max_doc(&self) -> Seq<u32> {
        self.max_doc@
    }

    pub fn new(block_size: u32) -> (r: Self)
        requires
            block_size > 0,
        ensures
            r.spec_block_size() == block_size,
            r.spec_scores().len() == 0,
            r.spec_partitions().len() == 0,
            r.spec_max_doc().len() == 0,
    {
        Self { block_size, scores: Vec::new(), partitions: Vec::new(), max_doc: Vec::new() }
    }

    pub fn partitions(&self) -> (r: &[u32])
        ensures
            r@ == self.spec_partitions(),
    {
        self.partitions.as_slice()
    }

    pub fn max_doc(&self) -> (r: &[u32])
        ensures
            r@ == self.spec_max_doc(),
    {
        self.max_doc.as_slice()
    }

    /// Adds the score key of the next entry.
    pub fn add_doc(&mut self, score: u32)
        ensures
            final(self).spec_scores() == old(self).spec_scores().push(score),
            final(self).spec_block_size() == old(self).spec_block_size(),
            final(self).spec_partitions() == old(self).spec_partitions(),
            final(self).spec_max_doc() == old(self).spec_max_doc(),
    {
        self.scores.push(score);
    }

    pub fn reset(&mut self)
        ensures
            final(self).spec_block_size() == old(self).spec_block_size(),
            final(self).spec_scores().len() == 0,
            final(self).spec_partitions().len() == 0,
            final(self).spec_max_doc().len() == 0,
    {
        self.scores.clear();
        self.partitions.clear();
        self.max_doc.clear();
    }

    /// Cuts the entries added into blocks, every one full but the last, and
    /// picks the entry with the largest score of each.
    pub fn make_partitions(&mut self)
        requires
            old(self).spec_block_size() > 0,
            old(self).spec_scores().len() <= u32::MAX,
        ensures
            final(self).spec_block_size() == old(self).spec_block_size(),
            final(self).spec_scores() == old(self).spec_scores(),
            final(self).spec_partitions().len() == (old(self).spec_scores().len() + old(self).spec_block_size() - 1) as nat / (old(self).spec_block_size() as nat),
            forall|i: int|
                0 <= i < final(self).spec_partitions().len() ==> final(self).spec_partitions()[i]
                    == fixed_boundary(old(self).spec_scores().len() as int, old(self).spec_block_size() as int, i),
            final(self).spec_max_doc().len() == final(self).spec_partitions().len(),
            forall|i: int|
                0 <= i < final(self).spec_max_doc().len() ==> is_last_max(
                    final(self).spec_scores(),
                    i * final(self).spec_block_size(),
                    final(self).spec_partitions()[i] as int,
                    #[trigger] final(self).spec_max_doc()[i] as int,
                ),
    {
        let partitions = fixed_partitions(self.scores.len(), self.block_size);
        let bs = self.block_size;
        let ghost n = self.scores@.len() as int;
        proof {
            assert forall|i: int| 0 <= i < partitions@.len() implies i * bs <= partitions@[i]
                < n && partitions@[i] <= (i + 1) * bs - 1 by {
                assert(i * bs <= partitions@[i] < n);
            }
            assert forall|i: int, j: int| 0 <= i < j < partitions@.len() implies partitions@[i]
                < partitions@[j] by {
                assert(i * bs <= partitions@[i] < n && j * bs <= partitions@[j] < n);
                assert((i + 1) * bs <= j * bs) by (nonlinear_arith)
                    requires
                        i < j,
                        bs > 0,
                ;
            }
            assert forall|i: int| 0 <= i < partitions@.len() implies block_start(partitions@, i)
                == i * bs by {
                if i > 0 {
                    assert(i * bs <= partitions@[i] < n);
                    assert(((i - 1) + 1) * bs == i * bs);
                    assert(partitions@[i - 1] == i * bs - 1);
                    assert(block_start(partitions@, i) == partitions@[i - 1] + 1);
                } else {
                    assert(i * bs == 0) by (nonlinear_arith)
                        requires
                            i == 0,
                    ;
                }
            }
        }
        let max_doc = max_docs(self.scores.as_slice(), partitions.as_slice());
        self.partitions = partitions;
        self.max_doc = max_doc;
    }
}

}
