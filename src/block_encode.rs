//! The block codec chosen for an index: delta-bitpack or Elias-Fano.
use crate::delta_bitpack::{
    block_readable, decoded_docids, decoded_freqs, encoded_block, DeltaBitpackDecode,
    DeltaBitpackEncode,
};
use crate::elias_fano::{
    ef_decodable, ef_encodable, ef_encoded, EliasFanoDecode, EliasFanoEncode,
};
use vstd::prelude::*;

verus! {

/// Which codec an index uses.
#[derive(Clone, Copy, Debug, PartialEq, Eq, Structural)]
pub enum EncodeOption {
    DeltaBitpack,
    EliasFano,
}

/// An encoder of either codec.
pub enum BlockEncode {
    DeltaBitpackEncode(DeltaBitpackEncode),
    EliasFanoEncode(EliasFanoEncode),
}

impl BlockEncode {
    pub open spec fn option(&self) -> EncodeOption {
        match self {
            BlockEncode::DeltaBitpackEncode(_) => EncodeOption::DeltaBitpack,
            BlockEncode::EliasFanoEncode(_) => EncodeOption::EliasFano,
        }
    }

    pub fn new(option: EncodeOption) -> (r: Self)
        ensures
            r.option() == option,
    {
        match option {
            EncodeOption::DeltaBitpack => BlockEncode::DeltaBitpackEncode(DeltaBitpackEncode::new()),
            EncodeOption::EliasFano => BlockEncode::EliasFanoEncode(EliasFanoEncode::new()),
        }
    }

    /// Encodes a block of at least one entry; `offset` is the last docid of
    /// the block before, if any.
    pub fn encode(&mut self, offset: Option<u32>, docids: &[u32], freqs: &[u32]) -> (r: &[u8])
        requires
            ef_encodable(offset, docids@, freqs@),
        ensures
            final(self).option() == old(self).option(),
            old(self).option() == EncodeOption::DeltaBitpack ==> r@ == encoded_block(
                offset,
                docids@,
                freqs@,
            ),
            old(self).option() == EncodeOption::EliasFano ==> r@ == ef_encoded(
                offset,
                docids@,
                freqs@,
            ),
    {
        match self {
            BlockEncode::DeltaBitpackEncode(e) => e.encode(offset, docids, freqs),
            BlockEncode::EliasFanoEncode(e) => e.encode(offset, docids, freqs),
        }
    }
}

/// A decoder of either codec.
pub enum BlockDecode {
    DeltaBitpackDecode(DeltaBitpackDecode),
    EliasFanoDecode(EliasFanoDecode),
}

impl BlockDecode {
    pub open spec fn option(&self) -> EncodeOption {
        match self {
            BlockDecode::DeltaBitpackDecode(_) => EncodeOption::DeltaBitpack,
            BlockDecode::EliasFanoDecode(_) => EncodeOption::EliasFano,
        }
    }

    /// The decoded docids.
    pub open spec fn docids(&self) -> Seq<u32> {
        match self {
            BlockDecode::DeltaBitpackDecode(d) => d.docids(),
            BlockDecode::EliasFanoDecode(d) => d.docids(),
        }
    }

    /// The decoded frequencies.
    pub open spec fn freqs(&self) -> Seq<u32> {
        match self {
            BlockDecode::DeltaBitpackDecode(d) => d.freqs(),
            BlockDecode::EliasFanoDecode(d) => d.freqs(),
        }
    }

    /// The position of the current entry.
    pub open spec fn pos(&self) -> int {
        match self {
            BlockDecode::DeltaBitpackDecode(d) => d.pos(),
            BlockDecode::EliasFanoDecode(d) => d.pos(),
        }
    }

    pub open spec fn wf(&self) -> bool {
        match self {
            BlockDecode::DeltaBitpackDecode(d) => d.wf(),
            BlockDecode::EliasFanoDecode(d) => d.wf(),
        }
    }

    /// Whether `data` is a block of `n` entries in this decoder's codec.
    pub open spec fn readable(&self, data: Seq<u8>, offset: Option<u32>, n: nat) -> bool {
        match self {
            BlockDecode::DeltaBitpackDecode(_) => block_readable(data, n),
            BlockDecode::EliasFanoDecode(_) => ef_decodable(data, offset, n),
        }
    }

    pub fn new(option: EncodeOption) -> (r: Self)
        ensures
            r.option() == option,
            r.wf(),
    {
        match option {
            EncodeOption::DeltaBitpack => BlockDecode::DeltaBitpackDecode(DeltaBitpackDecode::new()),
            EncodeOption::EliasFano => BlockDecode::EliasFanoDecode(EliasFanoDecode::new()),
        }
    }

    /// Decodes a block of `doc_cnt` entries and moves to its first entry.
    pub fn decode(&mut self, data: &[u8], offset: Option<u32>, doc_cnt: u32)
        requires
            old(self).readable(data@, offset, doc_cnt as nat),
        ensures
            final(self).option() == old(self).option(),
            final(self).wf(),
            final(self).pos() == 0,
            old(self).option() == EncodeOption::DeltaBitpack ==> final(self).docids()
                == decoded_docids(data@, offset, doc_cnt as nat) && final(self).freqs()
                == decoded_freqs(data@, doc_cnt as nat),
            old(self).option() == EncodeOption::EliasFano ==> forall|d: Seq<u32>, f: Seq<u32>|
                ef_encodable(offset, d, f) && d.len() == doc_cnt && data@ == ef_encoded(offset, d, f)
                    ==> final(self).docids() == d && final(self).freqs() == f,
    {
        match self {
            BlockDecode::DeltaBitpackDecode(d) => d.decode(data, offset, doc_cnt),
            BlockDecode::EliasFanoDecode(d) => d.decode(data, offset, doc_cnt),
        }
    }

    /// Moves to the next entry; false once past the last.
    pub fn next(&mut self) -> (r: bool)
        requires
            old(self).wf(),
            old(self).pos() < old(self).docids().len(),
        ensures
            final(self).option() == old(self).option(),
            final(self).wf(),
            final(self).docids() == old(self).docids(),
            final(self).freqs() == old(self).freqs(),
            final(self).pos() == old(self).pos() + 1,
            r == (final(self).pos() < final(self).docids().len()),
    {
        match self {
            BlockDecode::DeltaBitpackDecode(d) => d.next(),
            BlockDecode::EliasFanoDecode(d) => d.next(),
        }
    }

    /// Moves forward to the first entry from the current one on whose docid
    /// is at least `target`; false when there is none.
    pub fn seek(&mut self, target: u32) -> (r: bool)
        requires
            old(self).wf(),
            old(self).pos() <= old(self).docids().len(),
        ensures
            final(self).option() == old(self).option(),
            final(self).wf(),
            final(self).docids() == old(self).docids(),
            final(self).freqs() == old(self).freqs(),
            old(self).pos() <= final(self).pos() <= final(self).docids().len(),
            forall|j: int|
                old(self).pos() <= j < final(self).pos() ==> final(self).docids()[j] < target,
            final(self).pos() < final(self).docids().len() ==> final(self).docids()[final(self).pos()]
                >= target,
            r == (final(self).pos() < final(self).docids().len()),
    {
        match self {
            BlockDecode::DeltaBitpackDecode(d) => d.seek(target),
            BlockDecode::EliasFanoDecode(d) => d.seek(target),
        }
    }

    /// The docid of the current entry.
    pub fn docid(&self) -> (r: u32)
        requires
            self.wf(),
            self.pos() < self.docids().len(),
        ensures
            r == self.docids()[self.pos()],
    {
        match self {
            BlockDecode::DeltaBitpackDecode(d) => d.docid(),
            BlockDecode::EliasFanoDecode(d) => d.docid(),
        }
    }

    /// The frequency of the current entry.
    pub fn freq(&self) -> (r: u32)
        requires
            self.wf(),
            self.pos() < self.docids().len(),
        ensures
            r == self.freqs()[self.pos()],
    {
        match self {
            BlockDecode::DeltaBitpackDecode(d) => d.freq(),
            BlockDecode::EliasFanoDecode(d) => d.freq(),
        }
    }
}

}
