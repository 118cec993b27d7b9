use bm25::partition::{argmax_last, max_docs, FixedBlockPartition};

#[test]
fn argmax_takes_last_largest() {
    let keys = [3u32, 9, 1, 9, 2];
    assert_eq!(argmax_last(&keys, 0, 4), 3);
    assert_eq!(argmax_last(&keys, 0, 2), 1);
    assert_eq!(argmax_last(&keys, 4, 4), 4);
}

#[test]
fn max_docs_per_block() {
    let keys = [5u32, 1, 7, 7, 0, 2, 9];
    assert_eq!(max_docs(&keys, &[1, 4, 6]), vec![0, 3, 6]);
    assert_eq!(max_docs(&keys, &[]), Vec::<u32>::new());
}

#[test]
fn fixed_partition_blocks_and_max_doc() {
    let mut p = FixedBlockPartition::new(4);
    for k in [1u32, 8, 3, 8, 2, 2, 9, 0, 5, 6] {
        p.add_doc(k);
    }
    p.make_partitions();
    assert_eq!(p.partitions(), &[3, 7, 9]);
    assert_eq!(p.max_doc(), &[3, 6, 9]);
    for (i, &m) in p.max_doc().iter().enumerate() {
        let start = i as u32 * 4;
        assert!(p.partitions()[i] <= start + 3);
        assert!(start <= m && m <= p.partitions()[i]);
    }
    p.reset();
    assert_eq!(p.partitions(), &[] as &[u32]);
    p.make_partitions();
    assert_eq!(p.max_doc(), &[] as &[u32]);
}

#[test]
fn fixed_partition_of_128() {
    let mut p = FixedBlockPartition::new(128);
    for i in 0..256u32 {
        p.add_doc(i % 100);
    }
    p.make_partitions();
    assert_eq!(p.partitions(), &[127, 255]);
    assert_eq!(p.max_doc(), &[99, 199]);
}
