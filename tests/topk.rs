use std::collections::BinaryHeap;

use bm25::topk::TopKComputer;

fn key(score: f32) -> u32 {
    let bits = score.to_bits();
    if bits & 0x8000_0000 != 0 {
        !bits
    } else {
        bits | 0x8000_0000
    }
}

fn score(key: u32) -> f32 {
    if key & 0x8000_0000 != 0 {
        f32::from_bits(key & 0x7fff_ffff)
    } else {
        f32::from_bits(!key)
    }
}

#[derive(PartialEq)]
struct Cmp(f32, u32);
impl Eq for Cmp {}
impl PartialOrd for Cmp {
    fn partial_cmp(&self, other: &Self) -> Option<std::cmp::Ordering> {
        Some(self.cmp(other))
    }
}
impl Ord for Cmp {
    fn cmp(&self, other: &Self) -> std::cmp::Ordering {
        self.0.total_cmp(&other.0).reverse()
    }
}

#[test]
fn test_topk_computer() {
    let mut topk = TopKComputer::new(20);
    let mut reference = BinaryHeap::new();

    for _ in 0..100000 {
        let s = rand::random::<f32>();
        let id = rand::random::<u32>();
        topk.push(key(s), id);
        reference.push(Cmp(s, id));
        if reference.len() > 20 {
            reference.pop();
        }
    }

    let topk = topk.to_sorted_slice();
    let mut reference = reference.into_sorted_vec();
    reference.reverse();

    assert_eq!(topk.len(), reference.len());
    for (a, b) in topk.iter().zip(reference.iter()) {
        assert_eq!(score(a.0), b.0);
        assert_eq!(a.1, b.1);
    }
}

#[test]
fn topk_keys_follow_score_order() {
    let scores = [-3.5f32, -0.0, 0.0, 1e-30, 0.5, 1.0, 7.25, f32::MAX];
    for w in scores.windows(2) {
        assert!(key(w[0]) < key(w[1]));
    }
    for &s in &scores {
        assert_eq!(score(key(s)).to_bits(), s.to_bits());
    }
}

#[test]
fn topk_fewer_than_k() {
    let mut t = TopKComputer::new(5);
    t.push(10, 1);
    t.push(3, 2);
    t.push(7, 3);
    assert_eq!(t.to_sorted_slice(), &[(3, 2), (7, 3), (10, 1)]);
}

#[test]
fn topk_keeps_largest_and_threshold_rises() {
    let mut t = TopKComputer::new(2);
    let mut last = t.threshold();
    for (i, k) in [5u32, 1, 9, 3, 8, 2, 7, 6, 4, 10].iter().enumerate() {
        t.push(*k, i as u32);
        assert!(t.threshold() >= last);
        last = t.threshold();
    }
    assert!(last > 0);
    assert_eq!(t.to_sorted_slice(), &[(9, 2), (10, 9)]);
}

#[test]
fn topk_empty() {
    let mut t = TopKComputer::new(3);
    assert_eq!(t.to_sorted_slice(), &[]);
    assert_eq!(t.threshold(), 0);
}

#[test]
fn topk_threshold_never_above_kth_largest() {
    let mut t = TopKComputer::new(3);
    let mut keys = Vec::new();
    for i in 0..50u32 {
        let k = (i * 37) % 101;
        t.push(k, i);
        keys.push(k);
        let mut sorted = keys.clone();
        sorted.sort_unstable_by(|a, b| b.cmp(a));
        if t.threshold() > 0 {
            assert!(t.threshold() <= sorted[2]);
        }
    }
}
