use bm25::builder::{IndexBuilder, SealedSegmentWriter};
use bm25::meta::IndexMeta;
use bm25::posting::{EncodedPostings, PostingCursor};
use bm25::topk::TopKComputer;
use bm25::vector::Bm25Vector;

const K1: f32 = 1.2;
const B: f32 = 0.75;

fn vector(pairs: &[(u32, u32)]) -> Bm25Vector {
    let indexes = pairs.iter().map(|p| p.0).collect::<Vec<_>>();
    let values = pairs.iter().map(|p| p.1).collect::<Vec<_>>();
    let doc_len = values.iter().sum();
    Bm25Vector::new(doc_len, indexes, values).unwrap()
}

fn idf(n: u32, df: u32) -> f32 {
    ((n as f32 + 1.0) / (df as f32 + 0.5)).ln()
}

fn score(weight: f32, avgdl: f32, len: u32, tf: u32) -> f32 {
    let (len, tf) = (len as f32, tf as f32);
    weight * tf / (tf + K1 * (1.0 - B + B * len / avgdl))
}

fn key(s: f32) -> u32 {
    let bits = s.to_bits();
    if bits & 0x8000_0000 != 0 {
        !bits
    } else {
        bits | 0x8000_0000
    }
}

/// Scores every document of `term` and keeps the best `k` row locators.
fn scan(b: &IndexBuilder, term: u32, k: usize) -> Vec<u64> {
    let postings = b.inverted().postings(term);
    if postings.is_empty() {
        return Vec::new();
    }
    let n = b.doc_cnt();
    let avgdl = b.doc_term_cnt() as f32 / n as f32;
    let weight = idf(n, postings.len() as u32) * (1.0 + K1);
    let mut topk = TopKComputer::new(k);
    let mut c = PostingCursor::new(EncodedPostings::encode(&postings));
    while !c.completed() {
        let d = c.docid();
        topk.push(key(score(weight, avgdl, b.doc_lens()[d as usize], c.freq())), d);
        c.next();
    }
    topk.to_sorted_slice().iter().rev().map(|&(_, d)| b.payloads()[d as usize]).collect()
}

#[test]
fn scenario_empty_index() {
    let mut b = IndexBuilder::new();
    b.finalize_insert();
    assert_eq!(b.doc_cnt(), 0);
    for term in [0u32, 1, 7, 1000] {
        assert!(scan(&b, term, 10).is_empty());
    }
}

#[test]
fn scenario_single_doc() {
    let mut b = IndexBuilder::new();
    assert!(b.insert(42, &vector(&[(1, 2), (3, 1)])));
    b.finalize_insert();
    assert_eq!(b.inverted().postings(1), vec![(0, 2)]);
    assert_eq!(b.doc_lens(), &[3]);
    assert_eq!(scan(&b, 1, 10), vec![42]);
    let expected = idf(1, 1) * (1.0 + K1) * 2.0 / (2.0 + K1 * (1.0 - B + B * 3.0 / 3.0));
    let got = score(idf(1, 1) * (1.0 + K1), 3.0, 3, 2);
    assert!((got - expected).abs() < 1e-6);
}

#[test]
fn scenario_two_docs_one_term() {
    let mut b = IndexBuilder::new();
    assert!(b.insert(100, &vector(&[(1, 1)])));
    assert!(b.insert(200, &vector(&[(1, 2), (2, 1)])));
    b.finalize_insert();
    assert_eq!(b.inverted().postings(1), vec![(0, 1), (1, 2)]);
    assert_eq!(scan(&b, 1, 1), vec![100]);
    assert_eq!(scan(&b, 1, 2), vec![100, 200]);
}

#[test]
fn scenario_sealing_matches_bulk_build() {
    let growing_max = 300u32;
    let docs: Vec<Bm25Vector> = (0..=growing_max)
        .map(|i| vector(&[(i % 5, i % 3 + 1), (7, 1), (9 + i % 2, 2)]))
        .collect();
    let mut bulk = IndexBuilder::new();
    for (i, d) in docs.iter().enumerate() {
        assert!(bulk.insert(i as u64, d));
    }
    bulk.finalize_insert();
    let mut sealed = SealedSegmentWriter::new(0);
    for (i, d) in docs.iter().enumerate() {
        assert!(sealed.insert(d));
        assert_eq!(sealed.doc_cnt(), i as u32 + 1);
    }
    sealed.finalize_insert();
    for term in 0..12u32 {
        let a = bulk.inverted().postings(term);
        let b = sealed.inverted().postings(term);
        assert_eq!(a, b);
        let (ea, eb) = (EncodedPostings::encode(&a), EncodedPostings::encode(&b));
        let (sa, sb) = (ea.skip_records(), eb.skip_records());
        assert_eq!(sa.len(), sb.len());
        for (x, y) in sa.iter().zip(sb.iter()) {
            assert_eq!(
                (x.last_doc, x.docid_bits, x.tf_bits, x.flag),
                (y.last_doc, y.docid_bits, y.tf_bits, y.flag)
            );
        }
    }
    assert_eq!(bulk.term_stat(), sealed.inverted().term_stat());
}

#[test]
fn scenario_block_boundary() {
    let mut b = IndexBuilder::new();
    for i in 0..200u64 {
        assert!(b.insert(i, &vector(&[(7, 1)])));
    }
    b.finalize_insert();
    let mut c = PostingCursor::new(EncodedPostings::encode(&b.inverted().postings(7)));
    assert_eq!(c.last_doc_in_block(), 127);
    let mut docs = Vec::new();
    while !c.completed() {
        docs.push(c.docid());
        c.next();
    }
    assert_eq!(docs, (0..200).collect::<Vec<u32>>());
    let skips = EncodedPostings::encode(&b.inverted().postings(7)).skip_records();
    assert_eq!(skips.len(), 2);
    assert_eq!((skips[0].last_doc, skips[1].last_doc), (127, 199));
    assert_eq!(scan(&b, 7, 1000).len(), 200);
}

#[test]
fn scenario_deletion() {
    let mut b = IndexBuilder::new();
    let mut m = IndexMeta::new();
    for i in 0..200u64 {
        let v = vector(&[(7, 1)]);
        assert!(b.insert(i, &v));
        assert_eq!(m.insert(&v), Ok(i as u32));
    }
    b.finalize_insert();
    let remove: Vec<bool> = (0..200).map(|d| d % 2 == 0).collect();
    assert_eq!(m.bulk_delete(&remove), 100);
    assert_eq!(m.doc_cnt(), 100);
    for d in 0..200u32 {
        assert_eq!(m.is_deleted(d), d % 2 == 0);
    }
    m.vacuum_term_stat(b.inverted());
    assert_eq!(m.term_stat()[7], 100);
    assert_eq!(m.term_stat().len(), 8);
    let mut c = PostingCursor::new(EncodedPostings::encode(&b.inverted().postings(7)));
    let live: Vec<u32> = c.remaining().into_iter().map(|p| p.0).filter(|&d| !m.is_deleted(d)).collect();
    assert_eq!(live, (0..200).filter(|d| d % 2 == 1).collect::<Vec<u32>>());
}

#[test]
fn sealing_append_gives_bulk_blocks() {
    let p: Vec<(u32, u32)> = (0..700u32).map(|i| (i * 3 + 1, i % 4 + 1)).collect();
    let bulk = EncodedPostings::encode(&p);
    let mut grown = EncodedPostings::encode(&p[..301]);
    grown.append(&p[301..]);
    assert_eq!(grown.len(), bulk.len());
    for b in 0..5 {
        assert_eq!(grown.block_bytes(b), bulk.block_bytes(b));
    }
}
