//! The core of a BM25 inverted index, in memory: the two block codecs for
//! postings (delta-bitpack and Elias-Fano) and the older packed-block
//! format, posting lists laid out in blocks with skip records and a cursor
//! over them, block partitioning, the writers that gather postings from
//! tokenized documents, bounded top-K selection, the index-wide counters
//! with the delete bitmap, the text form of sparse vectors, and the
//! addressing of virtual page files.
pub mod block_encode;
pub mod compress_block;
pub mod builder;
pub mod delta_bitpack;
pub mod elias_fano;
pub mod inverted;
pub mod meta;
pub mod partition;
pub mod posting;
pub mod skip;
pub mod text;
pub mod topk;
pub mod vector;
pub mod vint;
pub mod vpage;
