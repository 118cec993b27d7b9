use bm25::builder::IndexBuilder;
use bm25::meta::{IndexMeta, InsertError};
use bm25::posting::{EncodedPostings, PostingCursor};
use bm25::vector::Bm25Vector;

fn vector(pairs: &[(u32, u32)]) -> Bm25Vector {
    let indexes = pairs.iter().map(|p| p.0).collect::<Vec<_>>();
    let values = pairs.iter().map(|p| p.1).collect::<Vec<_>>();
    let doc_len = values.iter().sum();
    Bm25Vector::new(doc_len, indexes, values).unwrap()
}

#[test]
fn meta_insert_counts() {
    let mut m = IndexMeta::new();
    assert_eq!(m.insert(&vector(&[(1, 2), (3, 1)])), Ok(0));
    assert_eq!(m.insert(&vector(&[(1, 1)])), Ok(1));
    assert_eq!(m.doc_cnt(), 2);
    assert_eq!(m.doc_term_cnt(), 4);
    assert_eq!(m.current_doc_id(), 2);
    assert_eq!(m.term_stat(), &[0, 2, 0, 1]);
    m.seal(2);
    assert_eq!(m.sealed_doc_id(), 2);
}

#[test]
fn meta_delete_even_docids() {
    let mut m = IndexMeta::new();
    let mut b = IndexBuilder::new();
    for i in 0..200u64 {
        let v = vector(&[(7, 1)]);
        assert_eq!(m.insert(&v), Ok(i as u32));
        assert!(b.insert(i, &v));
    }
    b.finalize_insert();
    assert_eq!(m.term_stat()[7], 200);
    let remove: Vec<bool> = (0..200).map(|i| i % 2 == 0).collect();
    assert_eq!(m.bulk_delete(&remove), 100);
    assert_eq!(m.doc_cnt(), 100);
    assert_eq!(m.doc_term_cnt(), 100);
    assert_eq!(m.bulk_delete(&remove), 0);
    assert_eq!(m.doc_cnt(), 100);

    let postings = b.inverted().postings(7);
    let live = m.live_postings(&postings);
    assert_eq!(live, 100);
    let mut stat = m.term_stat().to_vec();
    stat[7] = live;
    m.set_term_stat(stat);
    assert_eq!(m.term_stat()[7], 100);

    let mut c = PostingCursor::new(EncodedPostings::encode(&postings));
    let mut seen = Vec::new();
    while !c.completed() {
        if !m.is_deleted(c.docid()) {
            seen.push(c.docid());
        }
        c.next();
    }
    assert_eq!(seen, (0..200).filter(|d| d % 2 == 1).collect::<Vec<u32>>());
}

#[test]
fn meta_insert_error_message() {
    assert_eq!(
        InsertError::TooManyDocuments.message(),
        "bm25 index can only store up to 2^32 - 1 documents"
    );
}

#[test]
fn bulk_delete_counts_lengths() {
    let mut m = IndexMeta::new();
    for len in [3u32, 5, 7, 11] {
        assert!(m.insert(&vector(&[(2, len)])).is_ok());
    }
    assert_eq!(m.doc_term_cnt(), 26);
    assert_eq!(m.bulk_delete(&[true, false, true, false]), 2);
    assert_eq!(m.doc_term_cnt(), 16);
    assert_eq!(m.bulk_delete(&[true, true, false, false]), 1);
    assert_eq!(m.doc_term_cnt(), 11);
    assert_eq!(m.doc_cnt(), 1);
}
