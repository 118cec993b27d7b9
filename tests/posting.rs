use bm25::builder::IndexBuilder;
use bm25::posting::{EncodedPostings, PostingCursor};
use bm25::skip::UNFULLED;
use bm25::vector::Bm25Vector;
use bm25::vpage::{inode_path, page_of_offset, InodePath};

fn list(n: u32, step: u32) -> Vec<(u32, u32)> {
    (0..n).map(|i| (3 + i * step, i % 5 + 1)).collect()
}

fn walk(c: &mut PostingCursor) -> Vec<(u32, u32)> {
    let mut out = Vec::new();
    if c.completed() {
        return out;
    }
    loop {
        out.push((c.docid(), c.freq()));
        if !c.next() {
            break;
        }
    }
    out
}

#[test]
fn cursor_visits_every_posting() {
    for &n in &[0u32, 1, 127, 128, 129, 200, 256, 1000] {
        let p = list(n, 7);
        let mut c = PostingCursor::new(EncodedPostings::encode(&p));
        assert_eq!(walk(&mut c), p);
        assert!(c.completed());
    }
}

#[test]
fn block_boundary_two_blocks() {
    let mut b = IndexBuilder::new();
    for i in 0..200u64 {
        let v = Bm25Vector::new(1, vec![7], vec![1]).unwrap();
        assert!(b.insert(i, &v));
    }
    b.finalize_insert();
    let p = b.inverted().postings(7);
    let enc = EncodedPostings::encode(&p);
    assert_eq!(enc.len(), 200);
    let skips = enc.skip_records();
    assert_eq!(skips.len(), 2);
    assert_eq!(skips[0].last_doc, 127);
    assert_eq!(skips[0].flag & UNFULLED, 0);
    assert_eq!(skips[1].last_doc, 199);
    assert_eq!(skips[1].flag & UNFULLED, UNFULLED);
    let mut c = PostingCursor::new(enc);
    let docs: Vec<u32> = walk(&mut c).into_iter().map(|x| x.0).collect();
    assert_eq!(docs, (0..200).collect::<Vec<u32>>());
}

#[test]
fn cursor_seek() {
    let p = list(500, 3);
    let mut c = PostingCursor::new(EncodedPostings::encode(&p));
    assert!(c.seek(0));
    assert_eq!(c.docid(), 3);
    assert!(c.seek(4));
    assert_eq!(c.docid(), 6);
    assert!(c.seek(1000));
    assert_eq!(c.docid(), 1002);
    assert_eq!(c.freq(), p.iter().find(|x| x.0 == 1002).unwrap().1);
    assert!(c.seek(3 + 499 * 3));
    assert_eq!(c.docid(), 3 + 499 * 3);
    assert!(!c.seek(3 + 499 * 3 + 1));
    assert!(c.completed());
}

#[test]
fn shallow_seek_then_seek() {
    let p = list(600, 2);
    for target in [0u32, 5, 255, 256, 257, 700, 1000, 1199, 1201, 5000] {
        let mut c = PostingCursor::new(EncodedPostings::encode(&p));
        c.shallow_seek(target);
        let found = c.seek(target);
        let expected = p.iter().find(|x| x.0 >= target);
        match expected {
            Some(x) => {
                assert!(found);
                assert_eq!((c.docid(), c.freq()), *x);
                assert!(c.next() || x.0 == p.last().unwrap().0);
            }
            None => assert!(!found),
        }
    }
}

#[test]
fn inode_paths() {
    assert_eq!(inode_path(0, 4), Some(InodePath::Direct(0)));
    assert_eq!(inode_path(3, 4), Some(InodePath::Direct(3)));
    assert_eq!(inode_path(4, 4), Some(InodePath::Indirect1(0, 0)));
    assert_eq!(inode_path(9, 4), Some(InodePath::Indirect1(1, 1)));
    assert_eq!(inode_path(19, 4), Some(InodePath::Indirect1(3, 3)));
    assert_eq!(inode_path(20, 4), Some(InodePath::Indirect2(0, 0, 0)));
    assert_eq!(inode_path(20 + 16 + 5, 4), Some(InodePath::Indirect2(1, 1, 1)));
    assert_eq!(inode_path(83, 4), Some(InodePath::Indirect2(3, 3, 3)));
    assert_eq!(inode_path(84, 4), None);
    assert_eq!(inode_path(2048, 2048), Some(InodePath::Indirect1(0, 0)));
}

#[test]
fn offsets_to_pages() {
    assert_eq!(page_of_offset(0, 8000), (0, 0));
    assert_eq!(page_of_offset(7999, 8000), (0, 7999));
    assert_eq!(page_of_offset(8000, 8000), (1, 0));
    assert_eq!(page_of_offset(16_001, 8000), (2, 1));
}

#[test]
fn append_in_pieces() {
    let p = list(700, 5);
    for cut in [0usize, 1, 100, 127, 128, 300, 699, 700] {
        let mut enc = EncodedPostings::encode(&p[..cut]);
        enc.append(&p[cut..cut + (700 - cut) / 2]);
        enc.append(&p[cut + (700 - cut) / 2..]);
        assert_eq!(enc.len(), 700);
        assert_eq!(enc.skip_records().len(), 6);
        let mut c = PostingCursor::new(enc);
        assert_eq!(walk(&mut c), p);
    }
}

#[test]
fn remaining_from_start_and_middle() {
    let p = list(300, 4);
    let mut c = PostingCursor::new(EncodedPostings::encode(&p));
    assert_eq!(c.remaining(), p);
    assert!(c.completed());
    let mut c = PostingCursor::new(EncodedPostings::encode(&p));
    assert!(c.seek(600));
    let rest = c.remaining();
    assert_eq!(rest, p.iter().copied().filter(|x| x.0 >= 600).collect::<Vec<_>>());
}

#[test]
fn last_doc_in_block_follows_cursor() {
    let p = list(300, 2);
    let mut c = PostingCursor::new(EncodedPostings::encode(&p));
    assert_eq!(c.last_doc_in_block(), p[127].0);
    assert!(c.seek(p[130].0));
    assert_eq!(c.last_doc_in_block(), p[255].0);
    assert!(c.seek(p[260].0));
    assert_eq!(c.last_doc_in_block(), p[299].0);
}

#[test]
fn next_block_walks_blocks() {
    let mut b = IndexBuilder::new();
    for i in 0..200u64 {
        assert!(b.insert(i, &Bm25Vector::new(1, vec![7], vec![1]).unwrap()));
    }
    b.finalize_insert();
    let mut c = PostingCursor::new(EncodedPostings::encode(&b.inverted().postings(7)));
    assert_eq!(c.last_doc_in_block(), 127);
    assert!(c.next_block());
    assert_eq!(c.docid(), 128);
    assert_eq!(c.last_doc_in_block(), 199);
    assert!(!c.next_block());
    assert!(c.completed());
}

#[test]
fn shallow_seek_lands_on_block() {
    let p = list(300, 2);
    let mut c = PostingCursor::new(EncodedPostings::encode(&p));
    // the first block ends at 3 + 127 * 2 = 257
    assert!(c.shallow_seek(100));
    assert_eq!(c.docid(), 3);
    assert!(c.shallow_seek(258));
    assert_eq!(c.docid(), p[128].0);
    assert!(c.last_doc_in_block() >= 258);
    assert!(c.shallow_seek(p[299].0));
    assert_eq!(c.docid(), p[256].0);
    assert!(!c.shallow_seek(p[299].0 + 1));
    assert!(c.completed());
}

#[test]
fn skip_record_flags() {
    let p = list(300, 2);
    let s = EncodedPostings::encode(&p).skip_records();
    assert_eq!(s.len(), 3);
    assert_eq!(s[0].flag & UNFULLED, 0);
    assert_eq!(s[1].flag & UNFULLED, 0);
    assert_eq!(s[2].flag, UNFULLED);
    let s = EncodedPostings::encode(&p[..256]).skip_records();
    assert_eq!(s.len(), 2);
    assert_eq!(s[1].flag, 0);
}
