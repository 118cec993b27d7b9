//! Building a segment in memory from tokenized documents: inverted lists,
//! document lengths and the row locator of each document.
use crate::inverted::{InvertedWriter, TERMINATED_DOC};
use crate::vector::Bm25Vector;
use vstd::prelude::*;

verus! {

/// The row locator of each docid, in docid order.
pub struct PayloadWriter {
    pub buffer: Vec<u64>,
}

impl PayloadWriter {
    pub fn new() -> (r: Self)
        ensures
            r.buffer@.len() == 0,
    {
        Self { buffer: Vec::new() }
    }

    /// Appends the locator of the next docid.
    pub fn insert(&mut self, id: u64)
        ensures
            final(self).buffer@ == old(self).buffer@.push(id),
    {
        self.buffer.push(id);
    }
}

/// Whether no term id of `vector` is `u32::MAX`, which is kept free so that
/// the count of term ids fits in 32 bits.
pub open spec fn term_ids_in_range(vector: &Bm25Vector) -> bool {
    forall|k: int| 0 <= k < vector.spec_indexes().len() ==> vector.spec_indexes()[k] < u32::MAX
}

/// Builds an inverted index in memory, from empty; docids are given in
/// insertion order from 0.
pub struct IndexBuilder {
    doc_cnt: u32,
    doc_term_cnt: u64,
    postings_writer: InvertedWriter,
    doc_lens: Vec<u32>,
    payload_writer: PayloadWriter,
}

impl IndexBuilder {
    pub closed spec fn spec_doc_cnt(&self) -> u32 {
        self.doc_cnt
    }

    pub closed spec fn spec_doc_term_cnt(&self) -> u64 {
        self.doc_term_cnt
    }

    /// The length of each document, by docid.
    pub closed spec fn spec_doc_lens(&self) -> Seq<u32> {
        self.doc_lens@
    }

    /// The row locator of each document, by docid.
    pub closed spec fn spec_payloads(&self) -> Seq<u64> {
        self.payload_writer.buffer@
    }

    pub closed spec fn spec_inverted(&self) -> InvertedWriter {
        self.postings_writer
    }

    pub closed spec fn wf(&self) -> bool {
        &&& self.postings_writer.wf()
        &&& self.postings_writer.docs_below(self.doc_cnt)
        &&& self.doc_cnt < TERMINATED_DOC
        &&& self.doc_lens@.len() == self.doc_cnt
        &&& self.payload_writer.buffer@.len() == self.doc_cnt
        &&& self.doc_term_cnt <= self.doc_cnt * 0xffff_ffff
    }

    pub fn new() -> (r: Self)
        ensures
            r.wf(),
            r.spec_doc_cnt() == 0,
            r.spec_doc_term_cnt() == 0,
            r.spec_inverted().spec_term_id_cnt() == 0,
            forall|t: u32| r.spec_inverted().term_postings(t) == Seq::<(u32, u32)>::empty(),
    {
        Self {
            doc_cnt: 0,
            doc_term_cnt: 0,
            postings_writer: InvertedWriter::new(),
            doc_lens: Vec::new(),
            payload_writer: PayloadWriter::new(),
        }
    }

    /// Adds the next document, with row locator `id`; it gets docid
    /// `doc_cnt()`. Refused, with nothing changed, when the docid space is
    /// full (the last docid is reserved).
    pub fn insert(&mut self, id: u64, vector: &Bm25Vector) -> (r: bool)
        requires
            old(self).wf(),
            vector.wf(),
            term_ids_in_range(vector),
        ensures
            final(self).wf(),
            r == (old(self).spec_doc_cnt() + 1 < TERMINATED_DOC),
            !r ==> *final(self) == *old(self),
            r ==> final(self).spec_doc_cnt() == old(self).spec_doc_cnt() + 1,
            r ==> final(self).spec_doc_term_cnt() == old(self).spec_doc_term_cnt()
                + vector.spec_doc_len(),
            r ==> final(self).spec_doc_lens() == old(self).spec_doc_lens().push(
                vector.spec_doc_len(),
            ),
            r ==> final(self).spec_payloads() == old(self).spec_payloads().push(id),
            r ==> forall|k: int|
                0 <= k < vector.spec_indexes().len() ==> #[trigger] final(self).spec_inverted().term_postings(vector.spec_indexes()[k]) == old(self).spec_inverted().term_postings(vector.spec_indexes()[k]).push(
                    (old(self).spec_doc_cnt(), vector.spec_values()[k]),
                ),
            r ==> forall|t: u32|
                !vector.spec_indexes().contains(t) ==> #[trigger] final(self).spec_inverted().term_postings(t) == old(self).spec_inverted().term_postings(t),
            r ==> final(self).spec_inverted().spec_term_id_cnt() == if vector.spec_indexes().len()
                == 0 || old(self).spec_inverted().spec_term_id_cnt() > vector.spec_indexes().last() {
                old(self).spec_inverted().spec_term_id_cnt()
            } else {
                (vector.spec_indexes().last() + 1) as nat
            },
    {
        if self.doc_cnt + 1 == TERMINATED_DOC {
            return false;
        }
        let doc_id = self.doc_cnt;
        self.postings_writer.insert(doc_id, vector);
        self.doc_lens.push(vector.doc_len());
        self.payload_writer.insert(id);
        self.doc_cnt += 1;
        proof {
            assert(self.doc_term_cnt + vector.spec_doc_len() <= self.doc_cnt * 0xffff_ffff)
                by (nonlinear_arith)
                requires
                    self.doc_term_cnt <= (self.doc_cnt - 1) * 0xffff_ffff,
                    vector.spec_doc_len() <= 0xffff_ffff,
            ;
        }
        self.doc_term_cnt += vector.doc_len() as u64;
        true
    }

    /// Closes the open document of every term.
    pub fn finalize_insert(&mut self)
        requires
            old(self).wf(),
        ensures
            final(self).wf(),
            final(self).spec_inverted().finalized(),
            forall|t: u32| #[trigger] final(self).spec_inverted().term_postings(t) == old(self).spec_inverted().term_postings(t),
            final(self).spec_doc_cnt() == old(self).spec_doc_cnt(),
            final(self).spec_doc_term_cnt() == old(self).spec_doc_term_cnt(),
            final(self).spec_doc_lens() == old(self).spec_doc_lens(),
            final(self).spec_payloads() == old(self).spec_payloads(),
            final(self).spec_inverted().spec_term_id_cnt() == old(self).spec_inverted().spec_term_id_cnt(),
    {
        self.postings_writer.finalize();
    }

    /// The number of documents of each term id.
    pub fn term_stat(&self) -> (r: Vec<u32>)
        requires
            self.wf(),
        ensures
            r@.len() == self.spec_inverted().spec_term_id_cnt(),
            forall|t: int|
                0 <= t < r@.len() ==> r@[t] == self.spec_inverted().term_postings(t as u32).len(),
    {
        self.postings_writer.term_stat()
    }

    pub fn doc_cnt(&self) -> (r: u32)
        ensures
            r == self.spec_doc_cnt(),
    {
        self.doc_cnt
    }

    pub fn doc_term_cnt(&self) -> (r: u64)
        ensures
            r == self.spec_doc_term_cnt(),
    {
        self.doc_term_cnt
    }

    /// The inverted lists gathered so far.
    pub fn inverted(&self) -> (r: &InvertedWriter)
        ensures
            *r == self.spec_inverted(),
    {
        &self.postings_writer
    }

    /// The length of each document, by docid.
    pub fn doc_lens(&self) -> (r: &[u32])
        ensures
            r@ == self.spec_doc_lens(),
    {
        self.doc_lens.as_slice()
    }

    /// The row locator of each document, by docid.
    pub fn payloads(&self) -> (r: &[u64])
        ensures
            r@ == self.spec_payloads(),
    {
        self.payload_writer.buffer.as_slice()
    }
}

/// Where a sealed segment's term information starts, and how many term ids
/// it covers.
#[derive(Clone, Copy, Debug)]
pub struct SealedSegmentData {
    pub term_info_blkno: u32,
    pub term_id_cnt: u32,
}

/// Gathers the documents of a segment that is about to be sealed; they get
/// consecutive docids from `init_doc_id` on.
pub struct SealedSegmentWriter {
    init_doc_id: u32,
    doc_cnt: u32,
    doc_term_cnt: u64,
    writer: InvertedWriter,
}

impl SealedSegmentWriter {
    pub closed spec fn spec_inverted(&self) -> InvertedWriter {
        self.writer
    }

    pub closed spec fn spec_init_doc_id(&self) -> u32 {
        self.init_doc_id
    }

    pub closed spec fn spec_doc_cnt(&self) -> u32 {
        self.doc_cnt
    }

    pub closed spec fn spec_doc_term_cnt(&self) -> u64 {
        self.doc_term_cnt
    }

    pub closed spec fn wf(&self) -> bool {
        &&& self.writer.wf()
        &&& self.init_doc_id + self.doc_cnt <= u32::MAX
        &&& self.writer.docs_below((self.init_doc_id + self.doc_cnt) as u32)
        &&& self.doc_term_cnt <= self.doc_cnt * 0xffff_ffff
    }

    pub fn new(init_doc_id: u32) -> (r: Self)
        ensures
            r.wf(),
            r.spec_init_doc_id() == init_doc_id,
            r.spec_doc_cnt() == 0,
            r.spec_doc_term_cnt() == 0,
            r.spec_inverted().spec_term_id_cnt() == 0,
            forall|t: u32| r.spec_inverted().term_postings(t) == Seq::<(u32, u32)>::empty(),
    {
        Self { init_doc_id, doc_cnt: 0, doc_term_cnt: 0, writer: InvertedWriter::new() }
    }

    /// Records the next document under docid `init_doc_id + doc_cnt()`.
    /// Refused, with nothing changed, when that docid would be the reserved
    /// last one.
    pub fn insert(&mut self, vector: &Bm25Vector) -> (r: bool)
        requires
            old(self).wf(),
            vector.wf(),
            term_ids_in_range(vector),
        ensures
            final(self).wf(),
            r == (old(self).spec_init_doc_id() + old(self).spec_doc_cnt() < TERMINATED_DOC),
            !r ==> *final(self) == *old(self),
            final(self).spec_init_doc_id() == old(self).spec_init_doc_id(),
            r ==> final(self).spec_doc_cnt() == old(self).spec_doc_cnt() + 1,
            r ==> final(self).spec_doc_term_cnt() == old(self).spec_doc_term_cnt()
                + vector.spec_doc_len(),
            r ==> forall|k: int|
                0 <= k < vector.spec_indexes().len() ==> #[trigger] final(self).spec_inverted().term_postings(vector.spec_indexes()[k]) == old(self).spec_inverted().term_postings(vector.spec_indexes()[k]).push(
                    ((old(self).spec_init_doc_id() + old(self).spec_doc_cnt()) as u32, vector.spec_values()[k]),
                ),
            r ==> forall|t: u32|
                !vector.spec_indexes().contains(t) ==> #[trigger] final(self).spec_inverted().term_postings(t) == old(self).spec_inverted().term_postings(t),
            r ==> final(self).spec_inverted().spec_term_id_cnt() == if vector.spec_indexes().len()
                == 0 || old(self).spec_inverted().spec_term_id_cnt() > vector.spec_indexes().last() {
                old(self).spec_inverted().spec_term_id_cnt()
            } else {
                (vector.spec_indexes().last() + 1) as nat
            },
    {
        if self.init_doc_id as u64 + self.doc_cnt as u64 >= TERMINATED_DOC as u64 {
            return false;
        }
        let doc_id = self.init_doc_id + self.doc_cnt;
        self.writer.insert(doc_id, vector);
        self.doc_cnt += 1;
        proof {
            assert(self.doc_term_cnt + vector.spec_doc_len() <= self.doc_cnt * 0xffff_ffff)
                by (nonlinear_arith)
                requires
                    self.doc_term_cnt <= (self.doc_cnt - 1) * 0xffff_ffff,
                    vector.spec_doc_len() <= 0xffff_ffff,
            ;
        }
        self.doc_term_cnt += vector.doc_len() as u64;
        true
    }

    /// Closes the open document of every term.
    pub fn finalize_insert(&mut self)
        requires
            old(self).wf(),
        ensures
            final(self).wf(),
            final(self).spec_inverted().finalized(),
            final(self).spec_init_doc_id() == old(self).spec_init_doc_id(),
            final(self).spec_doc_cnt() == old(self).spec_doc_cnt(),
            final(self).spec_doc_term_cnt() == old(self).spec_doc_term_cnt(),
            forall|t: u32| #[trigger] final(self).spec_inverted().term_postings(t) == old(self).spec_inverted().term_postings(t),
            final(self).spec_inverted().spec_term_id_cnt() == old(self).spec_inverted().spec_term_id_cnt(),
    {
        self.writer.finalize();
    }

    pub fn doc_cnt(&self) -> (r: u32)
        ensures
            r == self.spec_doc_cnt(),
    {
        self.doc_cnt
    }

    pub fn doc_term_cnt(&self) -> (r: u64)
        ensures
            r == self.spec_doc_term_cnt(),
    {
        self.doc_term_cnt
    }

    /// The inverted lists gathered so far.
    pub fn inverted(&self) -> (r: &InvertedWriter)
        ensures
            *r == self.spec_inverted(),
    {
        &self.writer
    }
}

}
