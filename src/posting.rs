//! A posting list laid out in blocks: every full block of 128 entries is
//! encoded with the delta-bitpack codec and described by a skip record; the
//! remaining entries stay as plain values. A cursor walks the list, decoding
//! one block at a time and skipping blocks by their last docid.
use crate::delta_bitpack::{
    block_readable, decoded_docids, decoded_freqs, encoded_block, lemma_round_trip, valid_block,
    DeltaBitpackDecode, DeltaBitpackEncode,
};
use crate::inverted::{lemma_postings_count, postings_ok, TERMINATED_DOC};
use crate::skip::{SkipBlock, COMPRESSION_BLOCK_SIZE, UNFULLED};
use vstd::prelude::*;

verus! {

/// The docids of `p`.
pub open spec fn docids_of(p: Seq<(u32, u32)>) -> Seq<u32> {
    Seq::new(p.len(), |i: int| p[i].0)
}

/// The frequencies of `p`.
pub open spec fn tfs_of(p: Seq<(u32, u32)>) -> Seq<u32> {
    Seq::new(p.len(), |i: int| p[i].1)
}

/// Block `b` of `p`.
pub open spec fn block_of(p: Seq<(u32, u32)>, b: int) -> Seq<(u32, u32)> {
    p.subrange(128 * b, 128 * b + 128)
}

/// The docid before block `b`: the last one of the block before, if any.
pub open spec fn block_offset(p: Seq<(u32, u32)>, b: int) -> Option<u32> {
    if b == 0 {
        None
    } else {
        Some(p[128 * b - 1].0)
    }
}

/// The bytes of the full blocks of `p`: each block of 128 postings encoded
/// after the last docid of the block before. They depend on the postings
/// alone, however the list was built.
pub open spec fn blocks_of(p: Seq<(u32, u32)>) -> Seq<Seq<u8>> {
    Seq::new(
        p.len() / 128,
        |b: int| encoded_block(block_offset(p, b), docids_of(block_of(p, b)), tfs_of(block_of(p, b))),
    )
}

/// The postings of one term, laid out in blocks.
pub struct EncodedPostings {
    skips: Vec<SkipBlock>,
    blocks: Vec<Vec<u8>>,
    unfulled_docids: Vec<u32>,
    unfulled_tfs: Vec<u32>,
    postings: Ghost<Seq<(u32, u32)>>,
}

impl EncodedPostings {
    /// The postings that the list holds, in order.
    pub closed spec fn view_postings(&self) -> Seq<(u32, u32)> {
        self.postings@
    }

    /// The number of full blocks.
    pub closed spec fn block_count(&self) -> nat {
        self.blocks@.len()
    }

    /// The bytes of each full block.
    pub closed spec fn spec_blocks(&self) -> Seq<Seq<u8>> {
        Seq::new(self.blocks@.len(), |b: int| self.blocks@[b]@)
    }

    proof fn lemma_blocks(&self)
        requires
            self.wf(),
        ensures
            self.spec_blocks() == blocks_of(self.postings@),
            self.blocks@.len() == self.postings@.len() / 128,
    {
        let p = self.postings@;
        assert(self.blocks@.len() == p.len() / 128);
        assert forall|b: int| 0 <= b < self.blocks@.len() implies self.spec_blocks()[b]
            == blocks_of(p)[b] by {
            assert(block_readable(self.blocks@[b]@, 128));
        }
        assert(self.spec_blocks() =~= blocks_of(p));
    }

    /// The bytes of full block `b`.
    pub fn block_bytes(&self, b: usize) -> (r: &[u8])
        requires
            b < self.block_count(),
        ensures
            r@ == self.spec_blocks()[b as int],
    {
        self.blocks[b].as_slice()
    }

    pub closed spec fn wf(&self) -> bool {
        let p = self.postings@;
        let nb = self.blocks@.len() as int;
        &&& postings_ok(p, TERMINATED_DOC as int)
        &&& self.skips@.len() == nb
        &&& 128 * nb <= p.len() < 128 * nb + 128
        &&& forall|b: int|
            0 <= b < nb ==> {
                &&& block_readable(#[trigger] self.blocks@[b]@, 128)
                &&& decoded_docids(self.blocks@[b]@, block_offset(p, b), 128) == docids_of(
                    block_of(p, b),
                )
                &&& decoded_freqs(self.blocks@[b]@, 128) == tfs_of(block_of(p, b))
                &&& self.blocks@[b]@ == encoded_block(
                    block_offset(p, b),
                    docids_of(block_of(p, b)),
                    tfs_of(block_of(p, b)),
                )
                &&& self.skips@[b].last_doc == p[128 * b + 127].0
                &&& self.skips@[b].flag == 0
            }
        &&& self.unfulled_docids@ == docids_of(p.subrange(128 * nb, p.len() as int))
        &&& self.unfulled_tfs@ == tfs_of(p.subrange(128 * nb, p.len() as int))
    }

    /// Lays out `postings`: docids strictly increasing, frequencies at least one.
    pub fn encode(postings: &[(u32, u32)]) -> (r: Self)
        requires
            postings_ok(postings@, TERMINATED_DOC as int),
        ensures
            r.wf(),
            r.view_postings() == postings@,
            r.block_count() == postings@.len() / 128,
            r.spec_blocks() == blocks_of(postings@),
    {
        let ghost p = postings@;
        let n = postings.len();
        let nb = n / COMPRESSION_BLOCK_SIZE;
        let mut encoder = DeltaBitpackEncode::new();
        let mut skips: Vec<SkipBlock> = Vec::new();
        let mut blocks: Vec<Vec<u8>> = Vec::new();
        let mut b: usize = 0;
        while b < nb
            invariant
                n == p.len(),
                p == postings@,
                nb == n / 128,
                b <= nb,
                postings_ok(p, TERMINATED_DOC as int),
                skips@.len() == b,
                blocks@.len() == b,
                forall|c: int|
                    0 <= c < b ==> {
                        &&& block_readable(#[trigger] blocks@[c]@, 128)
                        &&& decoded_docids(blocks@[c]@, block_offset(p, c), 128) == docids_of(
                            block_of(p, c),
                        )
                        &&& decoded_freqs(blocks@[c]@, 128) == tfs_of(block_of(p, c))
                        &&& blocks@[c]@ == encoded_block(
                            block_offset(p, c),
                            docids_of(block_of(p, c)),
                            tfs_of(block_of(p, c)),
                        )
                        &&& skips@[c].last_doc == p[128 * c + 127].0
                        &&& skips@[c].flag == 0
                    },
            decreases nb - b,
        {
            let start = b * COMPRESSION_BLOCK_SIZE;
            let mut docids: Vec<u32> = Vec::new();
            let mut tfs: Vec<u32> = Vec::new();
            let mut i: usize = 0;
            while i < COMPRESSION_BLOCK_SIZE
                invariant
                    n == p.len(),
                    p == postings@,
                    b < nb,
                    nb == n / 128,
                    start == 128 * b,
                    i <= 128,
                    docids@ == docids_of(block_of(p, b as int)).subrange(0, i as int),
                    tfs@ == tfs_of(block_of(p, b as int)).subrange(0, i as int),
                decreases 128 - i,
            {
                let (d, f) = postings[start + i];
                docids.push(d);
                tfs.push(f);
                i += 1;
                assert(docids@ =~= docids_of(block_of(p, b as int)).subrange(0, i as int));
                assert(tfs@ =~= tfs_of(block_of(p, b as int)).subrange(0, i as int));
            }
            assert(docids@ =~= docids_of(block_of(p, b as int)));
            assert(tfs@ =~= tfs_of(block_of(p, b as int)));
            let offset: Option<u32> = if b == 0 {
                None
            } else {
                Some(postings[start - 1].0)
            };
            proof {
                assert(valid_block(offset, docids@, tfs@)) by {
                    assert forall|x: int, y: int| 0 <= x < y < docids@.len() implies docids@[x]
                        < docids@[y] by {
                        assert(p[start + x].0 < p[start + y].0);
                    }
                    if b > 0 {
                        assert(p[start - 1].0 < p[start as int].0);
                    }
                    assert forall|x: int| 0 <= x < tfs@.len() implies tfs@[x] >= 1 by {
                        assert(p[start + x].1 >= 1);
                    }
                }
                lemma_round_trip(offset, docids@, tfs@);
            }
            let data = encoder.encode(offset, docids.as_slice(), tfs.as_slice());
            let bytes = vstd::slice::slice_to_vec(data);
            let docid_bits = bytes[0];
            let tf_bits = bytes[1];
            blocks.push(bytes);
            skips.push(
                SkipBlock {
                    last_doc: docids[127],
                    blockwand_tf: 0,
                    docid_bits,
                    tf_bits,
                    blockwand_fieldnorm_id: 0,
                    flag: 0,
                },
            );
            b += 1;
        }
        let mut unfulled_docids: Vec<u32> = Vec::new();
        let mut unfulled_tfs: Vec<u32> = Vec::new();
        let tail = nb * COMPRESSION_BLOCK_SIZE;
        let mut i: usize = tail;
        while i < n
            invariant
                n == p.len(),
                p == postings@,
                tail == 128 * nb,
                nb == n / 128,
                tail <= i <= n,
                unfulled_docids@ == docids_of(p.subrange(tail as int, n as int)).subrange(
                    0,
                    i - tail,
                ),
                unfulled_tfs@ == tfs_of(p.subrange(tail as int, n as int)).subrange(0, i - tail),
            decreases n - i,
        {
            let (d, f) = postings[i];
            unfulled_docids.push(d);
            unfulled_tfs.push(f);
            i += 1;
            assert(unfulled_docids@ =~= docids_of(p.subrange(tail as int, n as int)).subrange(
                0,
                i - tail,
            ));
            assert(unfulled_tfs@ =~= tfs_of(p.subrange(tail as int, n as int)).subrange(
                0,
                i - tail,
            ));
        }
        assert(unfulled_docids@ =~= docids_of(p.subrange(tail as int, n as int)));
        assert(unfulled_tfs@ =~= tfs_of(p.subrange(tail as int, n as int)));
        let r = EncodedPostings { skips, blocks, unfulled_docids, unfulled_tfs, postings: Ghost(p) };
        proof {
            r.lemma_blocks();
        }
        r
    }

    /// Appends postings that all follow the last one: the partial block is
    /// merged with them, the full blocks that result are encoded after the
    /// existing ones, and what remains becomes the new partial block.
    pub fn append(&mut self, more: &[(u32, u32)])
        requires
            old(self).wf(),
            postings_ok(old(self).view_postings() + more@, TERMINATED_DOC as int),
        ensures
            final(self).wf(),
            final(self).view_postings() == old(self).view_postings() + more@,
            final(self).block_count() == final(self).view_postings().len() / 128,
            final(self).spec_blocks() == blocks_of(final(self).view_postings()),
    {
        let ghost p = self.postings@ + more@;
        let nb0 = self.blocks.len();
        proof {
            lemma_postings_count(p, TERMINATED_DOC as int);
        }
        let mut pending: Vec<(u32, u32)> = Vec::new();
        let mut i: usize = 0;
        while i < self.unfulled_docids.len()
            invariant
                self.wf(),
                self.blocks@.len() == nb0,
                p == self.postings@ + more@,
                i <= self.unfulled_docids@.len(),
                pending@ == p.subrange(128 * nb0, 128 * nb0 + i),
            decreases self.unfulled_docids@.len() - i,
        {
            pending.push((self.unfulled_docids[i], self.unfulled_tfs[i]));
            i += 1;
            assert(pending@ =~= p.subrange(128 * nb0, 128 * nb0 + i));
        }
        let mut j: usize = 0;
        while j < more.len()
            invariant
                self.wf(),
                self.blocks@.len() == nb0,
                p == self.postings@ + more@,
                j <= more@.len(),
                pending@ == p.subrange(128 * nb0, self.postings@.len() + j),
            decreases more@.len() - j,
        {
            pending.push(more[j]);
            j += 1;
            assert(pending@ =~= p.subrange(128 * nb0, self.postings@.len() + j));
        }
        assert(pending@ =~= p.subrange(128 * nb0, p.len() as int));
        let mut encoder = DeltaBitpackEncode::new();
        let mut pos: usize = 0;
        while pending.len() - pos >= COMPRESSION_BLOCK_SIZE
            invariant
                p.len() <= TERMINATED_DOC,
                postings_ok(p, TERMINATED_DOC as int),
                128 * nb0 <= p.len(),
                pending@ == p.subrange(128 * nb0, p.len() as int),
                pos <= pending@.len(),
                pos == 128 * (self.blocks@.len() - nb0),
                self.blocks@.len() >= nb0,
                self.skips@.len() == self.blocks@.len(),
                forall|c: int|
                    0 <= c < self.blocks@.len() ==> {
                        &&& block_readable(#[trigger] self.blocks@[c]@, 128)
                        &&& decoded_docids(self.blocks@[c]@, block_offset(p, c), 128) == docids_of(
                            block_of(p, c),
                        )
                        &&& decoded_freqs(self.blocks@[c]@, 128) == tfs_of(block_of(p, c))
                        &&& self.blocks@[c]@ == encoded_block(
                            block_offset(p, c),
                            docids_of(block_of(p, c)),
                            tfs_of(block_of(p, c)),
                        )
                        &&& self.skips@[c].last_doc == p[128 * c + 127].0
                        &&& self.skips@[c].flag == 0
                    },
            decreases pending@.len() - pos,
        {
            let b = self.blocks.len();
            let ghost start = 128 * b;
            let mut docids: Vec<u32> = Vec::new();
            let mut tfs: Vec<u32> = Vec::new();
            let mut t: usize = 0;
            while t < COMPRESSION_BLOCK_SIZE
                invariant
                    128 * nb0 <= p.len(),
                    pending@ == p.subrange(128 * nb0, p.len() as int),
                    pos + 128 <= pending@.len(),
                    pos == 128 * (b - nb0),
                    b >= nb0,
                    t <= 128,
                    docids@ == docids_of(block_of(p, b as int)).subrange(0, t as int),
                    tfs@ == tfs_of(block_of(p, b as int)).subrange(0, t as int),
                decreases 128 - t,
            {
                let (d, f) = pending[pos + t];
                docids.push(d);
                tfs.push(f);
                t += 1;
                assert(docids@ =~= docids_of(block_of(p, b as int)).subrange(0, t as int));
                assert(tfs@ =~= tfs_of(block_of(p, b as int)).subrange(0, t as int));
            }
            assert(docids@ =~= docids_of(block_of(p, b as int)));
            assert(tfs@ =~= tfs_of(block_of(p, b as int)));
            let offset: Option<u32> = if b == 0 {
                None
            } else {
                proof {
                    assert(block_readable(self.blocks@[b - 1]@, 128));
                }
                Some(self.skips[b - 1].last_doc)
            };
            proof {
                assert(valid_block(offset, docids@, tfs@)) by {
                    assert forall|x: int, y: int| 0 <= x < y < docids@.len() implies docids@[x]
                        < docids@[y] by {
                        assert(p[start + x].0 < p[start + y].0);
                    }
                    if b > 0 {
                        assert(p[start - 1].0 < p[start].0);
                    }
                    assert forall|x: int| 0 <= x < tfs@.len() implies tfs@[x] >= 1 by {
                        assert(p[start + x].1 >= 1);
                    }
                }
                lemma_round_trip(offset, docids@, tfs@);
            }
            let data = encoder.encode(offset, docids.as_slice(), tfs.as_slice());
            let bytes = vstd::slice::slice_to_vec(data);
            let docid_bits = bytes[0];
            let tf_bits = bytes[1];
            self.blocks.push(bytes);
            self.skips.push(
                SkipBlock {
                    last_doc: docids[127],
                    blockwand_tf: 0,
                    docid_bits,
                    tf_bits,
                    blockwand_fieldnorm_id: 0,
                    flag: 0,
                },
            );
            pos += COMPRESSION_BLOCK_SIZE;
        }
        let ghost nb = self.blocks@.len() as int;
        let mut unfulled_docids: Vec<u32> = Vec::new();
        let mut unfulled_tfs: Vec<u32> = Vec::new();
        let mut k: usize = pos;
        while k < pending.len()
            invariant
                128 * nb0 <= p.len(),
                pending@ == p.subrange(128 * nb0, p.len() as int),
                pos <= k <= pending@.len(),
                pos == 128 * (nb - nb0),
                unfulled_docids@ == docids_of(p.subrange(128 * nb, p.len() as int)).subrange(
                    0,
                    k - pos,
                ),
                unfulled_tfs@ == tfs_of(p.subrange(128 * nb, p.len() as int)).subrange(0, k - pos),
            decreases pending@.len() - k,
        {
            let (d, f) = pending[k];
            unfulled_docids.push(d);
            unfulled_tfs.push(f);
            k += 1;
            assert(unfulled_docids@ =~= docids_of(p.subrange(128 * nb, p.len() as int)).subrange(
                0,
                k - pos,
            ));
            assert(unfulled_tfs@ =~= tfs_of(p.subrange(128 * nb, p.len() as int)).subrange(
                0,
                k - pos,
            ));
        }
        assert(unfulled_docids@ =~= docids_of(p.subrange(128 * nb, p.len() as int)));
        assert(unfulled_tfs@ =~= tfs_of(p.subrange(128 * nb, p.len() as int)));
        self.unfulled_docids = unfulled_docids;
        self.unfulled_tfs = unfulled_tfs;
        self.postings = Ghost(p);
        proof {
            self.lemma_blocks();
        }
    }

    /// The number of postings.
    pub fn len(&self) -> (r: usize)
        requires
            self.wf(),
        ensures
            r == self.view_postings().len(),
    {
        proof {
            lemma_postings_count(self.postings@, TERMINATED_DOC as int);
        }
        self.blocks.len() * COMPRESSION_BLOCK_SIZE + self.unfulled_docids.len()
    }

    /// The skip record of each full block, with the final partial block
    /// described by one more record flagged as unfulled.
    pub fn skip_records(&self) -> (r: Vec<SkipBlock>)
        requires
            self.wf(),
        ensures
            r@.len() == self.block_count() + (if self.view_postings().len() > 128
                * self.block_count() {
                1int
            } else {
                0int
            }),
            forall|b: int| 0 <= b < r@.len() ==> #[trigger] r@[b].last_doc == self.view_postings()[if b
                < self.block_count() {
                128 * b + 127
            } else {
                self.view_postings().len() - 1
            }].0,
            r@.len() == (self.view_postings().len() + 127) / 128,
            forall|b: int| 0 <= b < self.block_count() ==> #[trigger] r@[b].flag == 0,
            forall|b: int| self.block_count() <= b < r@.len() ==> #[trigger] r@[b].flag == UNFULLED,
    {
        let mut r: Vec<SkipBlock> = Vec::new();
        let mut b: usize = 0;
        while b < self.skips.len()
            invariant
                self.wf(),
                b <= self.skips@.len(),
                r@.len() == b,
                forall|c: int| 0 <= c < b ==> #[trigger] r@[c].last_doc == self.postings@[128 * c + 127].0,
                forall|c: int| 0 <= c < b ==> #[trigger] r@[c].flag == 0,
            decreases self.skips@.len() - b,
        {
            proof {
                assert(block_readable(self.blocks@[b as int]@, 128));
            }
            r.push(self.skips[b]);
            b += 1;
        }
        let k = self.unfulled_docids.len();
        if k > 0 {
            r.push(
                SkipBlock {
                    last_doc: self.unfulled_docids[k - 1],
                    blockwand_tf: 0,
                    docid_bits: 0,
                    tf_bits: 0,
                    blockwand_fieldnorm_id: 0,
                    flag: UNFULLED,
                },
            );
        }
        r
    }

}

proof fn lemma_subrange_push(p: Seq<(u32, u32)>, a: int, b: int)
    requires
        0 <= a <= b < p.len(),
    ensures
        p.subrange(a, b + 1) == p.subrange(a, b).push(p[b]),
{
    assert(p.subrange(a, b + 1) =~= p.subrange(a, b).push(p[b]));
}

/// A position in a posting list. Full blocks are decoded when the cursor
/// enters them; blocks that a seek passes over are skipped by their last
/// docid without being decoded.
pub struct PostingCursor {
    list: EncodedPostings,
    block: usize,
    decoder: DeltaBitpackDecode,
    cur: usize,
}

impl PostingCursor {
    /// The postings that the cursor walks.
    pub closed spec fn postings(&self) -> Seq<(u32, u32)> {
        self.list.postings@
    }

    /// The position is never negative and never past the end.
    pub proof fn lemma_position(&self)
        requires
            self.wf(),
        ensures
            0 <= self.position() <= self.postings().len(),
            128 * self.full_blocks() <= self.postings().len(),
    {
    }

    /// The number of full blocks of the list.
    pub closed spec fn full_blocks(&self) -> nat {
        self.list.blocks@.len()
    }

    /// The index of the current posting; the length once past the end.
    pub closed spec fn position(&self) -> int {
        self.cur as int
    }

    pub closed spec fn wf(&self) -> bool {
        let p = self.list.postings@;
        let nb = self.list.blocks@.len() as int;
        &&& self.list.wf()
        &&& self.cur <= p.len()
        &&& if self.cur < 128 * nb {
            &&& 128 * self.block <= self.cur < 128 * self.block + 128
            &&& self.decoder.wf()
            &&& self.decoder.docids() == docids_of(block_of(p, self.block as int))
            &&& self.decoder.freqs() == tfs_of(block_of(p, self.block as int))
            &&& self.decoder.pos() == self.cur - 128 * self.block
        } else {
            self.block == nb
        }
    }

    /// A cursor on the first posting of `list`.
    pub fn new(list: EncodedPostings) -> (r: Self)
        requires
            list.wf(),
        ensures
            r.wf(),
            r.postings() == list.view_postings(),
            r.full_blocks() == list.block_count(),
            r.position() == 0,
            r.postings().len() > 0 ==> r.block_last_doc() == r.postings()[if r.postings().len() >= 128 {
                127int
            } else {
                r.postings().len() - 1
            }].0,
    {
        let mut c = PostingCursor { list, block: 0, decoder: DeltaBitpackDecode::new(), cur: 0 };
        if c.list.blocks.len() > 0 {
            c.enter_block(0);
        }
        c
    }

    /// Decodes block `b` and moves to its first posting.
    fn enter_block(&mut self, b: usize)
        requires
            old(self).list.wf(),
            b < old(self).list.blocks@.len(),
        ensures
            final(self).wf(),
            final(self).list == old(self).list,
            final(self).cur == 128 * b,
            final(self).block == b,
    {
        proof {
            assert(block_readable(self.list.blocks@[b as int]@, 128));
            lemma_postings_count(self.list.postings@, TERMINATED_DOC as int);
        }
        let offset: Option<u32> = if b == 0 {
            None
        } else {
            proof {
                assert(block_readable(self.list.blocks@[b - 1]@, 128));
            }
            Some(self.list.skips[b - 1].last_doc)
        };
        self.decoder.decode(self.list.blocks[b].as_slice(), offset, 128);
        self.block = b;
        self.cur = b * COMPRESSION_BLOCK_SIZE;
    }

    /// Whether the cursor is past the last posting.
    pub fn completed(&self) -> (r: bool)
        requires
            self.wf(),
        ensures
            r == (self.position() == self.postings().len()),
    {
        proof {
            lemma_postings_count(self.list.postings@, TERMINATED_DOC as int);
        }
        self.cur == self.list.len()
    }

    /// The docid of the current posting.
    pub fn docid(&self) -> (r: u32)
        requires
            self.wf(),
            self.position() < self.postings().len(),
        ensures
            r == self.postings()[self.position()].0,
    {
        proof {
            lemma_postings_count(self.list.postings@, TERMINATED_DOC as int);
        }
        let nb = self.list.blocks.len();
        if self.cur < nb * COMPRESSION_BLOCK_SIZE {
            self.decoder.docid()
        } else {
            self.list.unfulled_docids[self.cur - nb * COMPRESSION_BLOCK_SIZE]
        }
    }

    /// The frequency of the current posting.
    pub fn freq(&self) -> (r: u32)
        requires
            self.wf(),
            self.position() < self.postings().len(),
        ensures
            r == self.postings()[self.position()].1,
    {
        proof {
            lemma_postings_count(self.list.postings@, TERMINATED_DOC as int);
        }
        let nb = self.list.blocks.len();
        if self.cur < nb * COMPRESSION_BLOCK_SIZE {
            self.decoder.freq()
        } else {
            self.list.unfulled_tfs[self.cur - nb * COMPRESSION_BLOCK_SIZE]
        }
    }

    /// The last docid of the block that holds the current posting.
    pub open spec fn block_last_doc(&self) -> u32 {
        self.postings()[if self.position() < 128 * self.full_blocks() {
            128 * (self.position() / 128) + 127
        } else {
            self.postings().len() - 1
        }].0
    }

    /// The last docid of the block that holds the current posting.
    pub fn last_doc_in_block(&self) -> (r: u32)
        requires
            self.wf(),
            self.position() < self.postings().len(),
        ensures
            r == self.block_last_doc(),
    {
        proof {
            lemma_postings_count(self.list.postings@, TERMINATED_DOC as int);
        }
        let nb = self.list.blocks.len();
        if self.cur < nb * COMPRESSION_BLOCK_SIZE {
            proof {
                assert(block_readable(self.list.blocks@[self.block as int]@, 128));
                assert(self.cur as int / 128 == self.block) by (nonlinear_arith)
                    requires
                        128 * self.block <= self.cur < 128 * self.block + 128,
                ;
            }
            self.list.skips[self.block].last_doc
        } else {
            let k = self.list.unfulled_docids.len();
            self.list.unfulled_docids[k - 1]
        }
    }

    /// Moves to the next posting; false once past the last.
    pub fn next(&mut self) -> (r: bool)
        requires
            old(self).wf(),
            old(self).position() < old(self).postings().len(),
        ensures
            final(self).wf(),
            0 <= old(self).position() <= final(self).position(),
            final(self).postings() == old(self).postings(),
            final(self).full_blocks() == old(self).full_blocks(),
            final(self).position() == old(self).position() + 1,
            r == (final(self).position() < final(self).postings().len()),
    {
        proof {
            lemma_postings_count(self.list.postings@, TERMINATED_DOC as int);
        }
        let nb = self.list.blocks.len();
        if self.cur < nb * COMPRESSION_BLOCK_SIZE {
            self.decoder.next();
            self.cur += 1;
            if self.cur == (self.block + 1) * COMPRESSION_BLOCK_SIZE {
                if self.block + 1 < nb {
                    self.enter_block(self.block + 1);
                } else {
                    self.block = nb;
                }
            }
        } else {
            self.cur += 1;
        }
        self.cur < self.list.len()
    }

    /// Walks the cursor to the end and returns every posting it passed, in
    /// order: from a new cursor, exactly the postings of the list.
    pub fn remaining(&mut self) -> (r: Vec<(u32, u32)>)
        requires
            old(self).wf(),
        ensures
            final(self).wf(),
            0 <= old(self).position() <= final(self).position(),
            final(self).postings() == old(self).postings(),
            final(self).full_blocks() == old(self).full_blocks(),
            final(self).position() == final(self).postings().len(),
            r@ == old(self).postings().subrange(old(self).position(), old(self).postings().len() as int),
    {
        let ghost p = self.list.postings@;
        let ghost start = self.cur as int;
        let mut out: Vec<(u32, u32)> = Vec::new();
        while !self.completed()
            invariant
                self.wf(),
                self.list.postings@ == p,
                0 <= start <= self.cur <= p.len(),
                out@ == p.subrange(start, self.cur as int),
            decreases p.len() - self.cur,
        {
            let ghost c0 = self.cur as int;
            proof {
                lemma_subrange_push(p, start, c0);
            }
            let e = (self.docid(), self.freq());
            assert(e == p[c0]);
            out.push(e);
            self.next();
        }
        out
    }

    /// Moves to the first posting of the next block; false, at the end, when
    /// the current block is the last.
    pub fn next_block(&mut self) -> (r: bool)
        requires
            old(self).wf(),
        ensures
            final(self).wf(),
            0 <= old(self).position() <= final(self).position(),
            final(self).postings() == old(self).postings(),
            final(self).full_blocks() == old(self).full_blocks(),
            final(self).position() == if old(self).position() < 128 * old(self).full_blocks() {
                128 * (old(self).position() / 128 + 1)
            } else {
                old(self).postings().len() as int
            },
            r == (final(self).position() < final(self).postings().len()),
    {
        proof {
            lemma_postings_count(self.list.postings@, TERMINATED_DOC as int);
        }
        let nb = self.list.blocks.len();
        if self.cur < nb * COMPRESSION_BLOCK_SIZE {
            proof {
                assert(self.cur as int / 128 == self.block) by (nonlinear_arith)
                    requires
                        128 * self.block <= self.cur < 128 * self.block + 128,
                ;
            }
            if self.block + 1 < nb {
                self.enter_block(self.block + 1);
            } else {
                self.block = nb;
                self.cur = nb * COMPRESSION_BLOCK_SIZE;
            }
        } else {
            self.cur = self.list.len();
        }
        self.cur < self.list.len()
    }

    /// Moves to the block that may hold `target`, by skip records alone:
    /// passes over the full blocks whose last docid is below `target` and
    /// lands on the first posting of the next block, or stays put when the
    /// current block's last docid is at least `target`. False, at the end,
    /// when every remaining docid is below `target`.
    #[verifier::spinoff_prover]
    #[verifier::rlimit(60)]
    pub fn shallow_seek(&mut self, target: u32) -> (r: bool)
        requires
            old(self).wf(),
        ensures
            final(self).wf(),
            0 <= old(self).position() <= final(self).position(),
            final(self).postings() == old(self).postings(),
            final(self).full_blocks() == old(self).full_blocks(),
            old(self).position() <= final(self).position() <= final(self).postings().len(),
            forall|j: int|
                old(self).position() <= j < final(self).position() ==> #[trigger] final(self).postings()[j].0 < target,
            r == (final(self).position() < final(self).postings().len()),
            r ==> final(self).block_last_doc() >= target,
            final(self).position() == old(self).position() || final(self).position() % 128 == 0
                || final(self).position() == final(self).postings().len(),
            old(self).position() < old(self).postings().len() && old(self).block_last_doc()
                >= target ==> final(self).position() == old(self).position(),
    {
        let ghost p = self.list.postings@;
        let ghost cur0 = self.cur as int;
        proof {
            lemma_postings_count(self.list.postings@, TERMINATED_DOC as int);
        }
        let nb = self.list.blocks.len();
        let mut b = self.block;
        while b < nb && self.list.skips[b].last_doc < target
            invariant
                self.wf(),
                self.list.postings@ == p,
                self.cur == cur0,
                nb == self.list.blocks@.len(),
                self.block <= b <= nb,
                self.cur < 128 * nb ==> 128 * self.block <= self.cur,
                forall|j: int| cur0 <= j < 128 * b ==> #[trigger] p[j].0 < target,
            decreases nb - b,
        {
            proof {
                assert(block_readable(self.list.blocks@[b as int]@, 128));
                assert forall|j: int| cur0 <= j < 128 * (b + 1) implies #[trigger] p[j].0
                    < target by {
                    if j >= 128 * b && j < 128 * b + 127 {
                        assert(p[j].0 < p[128 * b + 127].0);
                    }
                }
            }
            b += 1;
        }
        proof {
            if b < nb {
                assert(block_readable(self.list.blocks@[b as int]@, 128));
            }
        }
        if b != self.block {
            if b < nb {
                self.enter_block(b);
            } else {
                self.block = nb;
                self.cur = nb * COMPRESSION_BLOCK_SIZE;
            }
        }
        let len = self.list.len();
        if self.cur >= nb * COMPRESSION_BLOCK_SIZE && self.cur < len {
            let k = self.list.unfulled_docids.len();
            if self.list.unfulled_docids[k - 1] < target {
                proof {
                    assert forall|j: int| self.cur <= j < len implies #[trigger] p[j].0 < target by {
                        if j < len - 1 {
                            assert(p[j].0 < p[len - 1].0);
                        }
                    }
                }
                self.cur = len;
            }
        }
        proof {
            if self.cur < 128 * nb {
                assert(self.cur as int / 128 == self.block) by (nonlinear_arith)
                    requires
                        128 * self.block <= self.cur < 128 * self.block + 128,
                ;
            }
        }
        self.cur < len
    }

    /// Moves forward to the first posting, from the current one on, whose
    /// docid is at least `target`; false when there is none.
    pub fn seek(&mut self, target: u32) -> (r: bool)
        requires
            old(self).wf(),
        ensures
            final(self).wf(),
            0 <= old(self).position() <= final(self).position(),
            final(self).postings() == old(self).postings(),
            final(self).full_blocks() == old(self).full_blocks(),
            old(self).position() <= final(self).position() <= final(self).postings().len(),
            forall|j: int|
                old(self).position() <= j < final(self).position() ==> #[trigger] final(self).postings()[j].0 < target,
            final(self).position() < final(self).postings().len() ==> final(self).postings()[final(self).position()].0 >= target,
            r == (final(self).position() < final(self).postings().len()),
    {
        let ghost cur0 = self.cur as int;
        let ghost p = self.list.postings@;
        self.shallow_seek(target);
        while !self.completed() && self.docid() < target
            invariant
                self.wf(),
                self.list.postings@ == p,
                cur0 <= self.cur <= p.len(),
                forall|j: int| cur0 <= j < self.cur ==> #[trigger] p[j].0 < target,
            decreases p.len() - self.cur,
        {
            self.next();
        }
        !self.completed()
    }
}

}
