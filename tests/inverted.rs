use bm25::builder::{IndexBuilder, PayloadWriter, SealedSegmentWriter};
use bm25::inverted::{InvertedWriter, TermLists};
use bm25::skip::{compressed_block_size, fixed_partitions, SkipBlock, PAGE_CHANGED, UNFULLED};
use bm25::vector::Bm25Vector;

fn vector(pairs: &[(u32, u32)]) -> Bm25Vector {
    let indexes = pairs.iter().map(|p| p.0).collect::<Vec<_>>();
    let values = pairs.iter().map(|p| p.1).collect::<Vec<_>>();
    let doc_len = values.iter().sum();
    Bm25Vector::new(doc_len, indexes, values).unwrap()
}

#[test]
fn vector_checks_its_parts() {
    assert!(Bm25Vector::new(3, vec![1, 3], vec![2, 1]).is_some());
    assert!(Bm25Vector::new(4, vec![1, 3], vec![2, 1]).is_none());
    assert!(Bm25Vector::new(3, vec![3, 1], vec![2, 1]).is_none());
    assert!(Bm25Vector::new(3, vec![1, 1], vec![2, 1]).is_none());
    assert!(Bm25Vector::new(2, vec![1, 3], vec![2, 0]).is_none());
    assert!(Bm25Vector::new(2, vec![1], vec![1, 1]).is_none());
    assert!(Bm25Vector::new(0, vec![], vec![]).is_some());
    assert!(Bm25Vector::new(0, vec![1, 2], vec![u32::MAX, 1]).is_none());
}

#[test]
fn inverted_writer_lists_in_order() {
    let mut w = InvertedWriter::new();
    w.insert(0, &vector(&[(1, 2), (3, 1)]));
    w.insert(1, &vector(&[(1, 1), (2, 5)]));
    w.insert(7, &vector(&[(3, 4)]));
    w.finalize();
    assert_eq!(w.postings(1), vec![(0, 2), (1, 1)]);
    assert_eq!(w.postings(2), vec![(1, 5)]);
    assert_eq!(w.postings(3), vec![(0, 1), (7, 4)]);
    assert_eq!(w.postings(0), vec![]);
    assert_eq!(w.postings(9), vec![]);
    assert_eq!(w.term_id_cnt(), 4);
    assert_eq!(w.term_stat(), vec![0, 2, 1, 2]);
}

#[test]
fn inverted_writer_serializes_every_term_id() {
    let mut w = InvertedWriter::new();
    w.insert(0, &vector(&[(2, 1)]));
    w.insert(1, &vector(&[(2, 3), (4, 1)]));
    w.finalize();
    let mut c = TermLists::new();
    w.serialize(&mut c);
    assert_eq!(c.len(), 5);
    let lists: Vec<Vec<(u32, u32)>> = (0..c.len()).map(|i| c.list(i).to_vec()).collect();
    assert_eq!(
        lists,
        vec![vec![], vec![], vec![(0, 1), (1, 3)], vec![], vec![(1, 1)]]
    );
}

#[test]
fn inverted_writer_large_gaps() {
    let mut w = InvertedWriter::new();
    let ids = [0u32, 1, 127, 128, 16_384, 2_000_000, u32::MAX - 1];
    for &d in &ids {
        w.insert(d, &vector(&[(5, d % 7 + 1)]));
    }
    w.finalize();
    let expected = ids.iter().map(|&d| (d, d % 7 + 1)).collect::<Vec<_>>();
    assert_eq!(w.postings(5), expected);
    assert_eq!(w.term_stat()[5], ids.len() as u32);
}

#[test]
fn empty_writer() {
    let mut w = InvertedWriter::new();
    w.finalize();
    assert_eq!(w.term_id_cnt(), 0);
    assert_eq!(w.term_stat(), Vec::<u32>::new());
    let mut c = TermLists::new();
    w.serialize(&mut c);
    assert_eq!(c.len(), 0);
}

#[test]
fn index_builder_counts() {
    let mut b = IndexBuilder::new();
    assert!(b.insert(100, &vector(&[(1, 2), (3, 1)])));
    assert!(b.insert(200, &vector(&[(1, 1)])));
    b.finalize_insert();
    assert_eq!(b.doc_cnt(), 2);
    assert_eq!(b.doc_term_cnt(), 4);
    assert_eq!(b.doc_lens(), &[3, 1]);
    assert_eq!(b.payloads(), &[100, 200]);
    assert_eq!(b.term_stat(), vec![0, 2, 0, 1]);
    assert_eq!(b.inverted().postings(1), vec![(0, 2), (1, 1)]);
}

#[test]
fn index_builder_block_boundary() {
    let mut b = IndexBuilder::new();
    for i in 0..200u64 {
        assert!(b.insert(i, &vector(&[(7, 1)])));
    }
    b.finalize_insert();
    let postings = b.inverted().postings(7);
    assert_eq!(postings.len(), 200);
    for (i, p) in postings.iter().enumerate() {
        assert_eq!(*p, (i as u32, 1));
    }
    assert_eq!(fixed_partitions(postings.len(), 128), vec![127, 199]);
}

#[test]
fn sealed_writer_numbers_from_init() {
    let mut s = SealedSegmentWriter::new(10);
    assert!(s.insert(&vector(&[(1, 1)])));
    assert!(s.insert(&vector(&[(1, 2), (2, 1)])));
    s.finalize_insert();
    assert_eq!(s.doc_cnt(), 2);
    assert_eq!(s.doc_term_cnt(), 4);
    assert_eq!(s.inverted().postings(1), vec![(10, 1), (11, 2)]);
    assert_eq!(s.inverted().postings(2), vec![(11, 1)]);
}

#[test]
fn sealed_writer_refuses_reserved_docid() {
    let mut s = SealedSegmentWriter::new(u32::MAX - 1);
    assert!(s.insert(&vector(&[(1, 1)])));
    assert!(!s.insert(&vector(&[(1, 1)])));
    assert_eq!(s.doc_cnt(), 1);
    s.finalize_insert();
    assert_eq!(s.inverted().postings(1), vec![(u32::MAX - 1, 1)]);
}

#[test]
fn payload_writer_appends() {
    let mut p = PayloadWriter::new();
    p.insert(5);
    p.insert(3);
    assert_eq!(p.buffer, vec![5, 3]);
}

#[test]
fn skip_block_sizes() {
    assert_eq!(compressed_block_size(0), 0);
    assert_eq!(compressed_block_size(3), 48);
    assert_eq!(compressed_block_size(32), 512);
    let full = SkipBlock {
        last_doc: 127,
        blockwand_tf: 1,
        docid_bits: 2,
        tf_bits: 5,
        blockwand_fieldnorm_id: 0,
        flag: PAGE_CHANGED,
    };
    assert_eq!(full.block_size(), 32 + 80);
    let partial = SkipBlock { docid_bits: 1, tf_bits: 44, flag: UNFULLED, ..full };
    assert_eq!(partial.block_size(), 300);
}

#[test]
fn fixed_partitions_boundaries() {
    assert_eq!(fixed_partitions(0, 128), Vec::<u32>::new());
    assert_eq!(fixed_partitions(127, 128), vec![126]);
    assert_eq!(fixed_partitions(1, 128), vec![0]);
    assert_eq!(fixed_partitions(256, 128), vec![127, 255]);
    assert_eq!(fixed_partitions(300, 128), vec![127, 255, 299]);
}
