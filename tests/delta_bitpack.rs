use bm25::delta_bitpack::{DeltaBitpackDecode, DeltaBitpackEncode};

fn random_block(n: usize, universe: usize, max_freq: u32) -> (Vec<u32>, Vec<u32>) {
    let mut docids = rand::seq::index::sample(&mut rand::thread_rng(), universe, n)
        .into_iter()
        .map(|x| x as u32)
        .collect::<Vec<_>>();
    docids.sort_unstable();
    let freqs = (0..n)
        .map(|_| rand::random::<u32>() % max_freq + 1)
        .collect::<Vec<_>>();
    (docids, freqs)
}

#[test]
fn test_delta_bitpack_next() {
    let mut encoder = DeltaBitpackEncode::new();
    let mut decoder = DeltaBitpackDecode::new();
    let (docids, freqs) = random_block(100, 10000, 1000);
    let offset = None;

    println!("docids: {:?}", docids);
    println!("freqs: {:?}", freqs);

    let data = encoder.encode(offset, &mut docids.clone(), &mut freqs.clone());
    decoder.decode(data, offset, docids.len() as u32);

    for i in 0..docids.len() {
        assert_eq!(docids[i], decoder.docid());
        assert_eq!(freqs[i], decoder.freq());
        if i + 1 < docids.len() {
            assert!(decoder.next());
        } else {
            assert!(!decoder.next());
        }
    }
}

#[test]
fn test_delta_bitpack_seek() {
    let mut encoder = DeltaBitpackEncode::new();
    let mut decoder = DeltaBitpackDecode::new();
    let (docids, freqs) = random_block(100, 10000, 1000);
    let offset = None;

    println!("docids: {:?}", docids);
    println!("freqs: {:?}", freqs);

    let data = encoder.encode(offset, &mut docids.clone(), &mut freqs.clone());
    decoder.decode(data, offset, docids.len() as u32);

    for i in 0..docids.len() {
        assert_eq!(docids[i], decoder.docid());
        assert_eq!(freqs[i], decoder.freq());
        if i + 1 < docids.len() {
            assert!(decoder.seek(docids[i] + 1));
        } else {
            assert!(!decoder.seek(docids[i] + 1));
        }
    }
}

#[test]
fn test_delta_bitpack_seek2() {
    let mut encoder = DeltaBitpackEncode::new();
    let mut decoder = DeltaBitpackDecode::new();
    let (docids, freqs) = random_block(100, 10000, 1000);
    let offset = None;

    println!("docids: {:?}", docids);
    println!("freqs: {:?}", freqs);

    let data = encoder.encode(offset, &mut docids.clone(), &mut freqs.clone());
    decoder.decode(data, offset, docids.len() as u32);

    assert_eq!(docids[0], decoder.docid());
    assert_eq!(freqs[0], decoder.freq());

    assert!(decoder.seek(docids.last().unwrap().clone()));
    assert_eq!(docids.last().unwrap().clone(), decoder.docid());
}

#[test]
fn test_delta_bitpack_zero_bit_width() {
    let mut encoder = DeltaBitpackEncode::new();
    let mut decoder = DeltaBitpackDecode::new();

    let docids = vec![10];
    let freqs = vec![1];
    let offset = Some(9);

    println!("docids: {:?}", docids);
    println!("freqs: {:?}", freqs);

    let data = encoder.encode(offset, &mut docids.clone(), &mut freqs.clone());
    decoder.decode(data, offset, docids.len() as u32);

    for i in 0..docids.len() {
        assert_eq!(docids[i], decoder.docid());
        assert_eq!(freqs[i], decoder.freq());
        if i + 1 < docids.len() {
            assert!(decoder.seek(docids[i] + 1));
        } else {
            assert!(!decoder.seek(docids[i] + 1));
        }
    }
}

#[test]
fn delta_bitpack_exact_bytes() {
    let mut encoder = DeltaBitpackEncode::new();
    // gaps less one: 0, 1, 2; frequencies less one: 0, 0, 1
    let data = encoder.encode(None, &[0, 2, 5], &[1, 1, 2]).to_vec();
    // gap width 2, frequency width 1; gaps 0b10_01_00, frequencies 0b100
    assert_eq!(data, vec![2, 1, 0b0010_0100, 0b0000_0100]);
}

#[test]
fn delta_bitpack_every_width_round_trips() {
    let mut encoder = DeltaBitpackEncode::new();
    let mut decoder = DeltaBitpackDecode::new();
    for width in 0..=32u32 {
        let step: u64 = if width == 0 { 1 } else { 1u64 << (width - 1) };
        let mut docids = Vec::new();
        let mut d: u64 = 5;
        while docids.len() < 128 && d < u32::MAX as u64 {
            docids.push(d as u32);
            d += step;
        }
        let freqs: Vec<u32> = (0..docids.len() as u32)
            .map(|i| if width == 0 { 1 } else { ((i as u64 * 7919) % (1u64 << width.min(31)) + 1) as u32 })
            .collect();
        let offset = Some(4);
        let data = encoder.encode(offset, &docids, &freqs).to_vec();
        decoder.decode(&data, offset, docids.len() as u32);
        for i in 0..docids.len() {
            assert_eq!(decoder.docid(), docids[i]);
            assert_eq!(decoder.freq(), freqs[i]);
            assert_eq!(decoder.next(), i + 1 < docids.len());
        }
    }
}

#[test]
fn delta_bitpack_seek_lands_on_smallest() {
    let mut encoder = DeltaBitpackEncode::new();
    let mut decoder = DeltaBitpackDecode::new();
    let docids = vec![3, 8, 20, 21, 50];
    let freqs = vec![1, 4, 2, 9, 1];
    let data = encoder.encode(None, &docids, &freqs).to_vec();
    decoder.decode(&data, None, 5);
    assert!(decoder.seek(9));
    assert_eq!(decoder.docid(), 20);
    assert_eq!(decoder.freq(), 2);
    assert!(decoder.seek(20));
    assert_eq!(decoder.docid(), 20);
    assert!(decoder.seek(22));
    assert_eq!(decoder.docid(), 50);
    assert!(!decoder.seek(51));
}

#[test]
fn delta_bitpack_first_block_starts_at_zero() {
    let mut encoder = DeltaBitpackEncode::new();
    let mut decoder = DeltaBitpackDecode::new();
    let docids = vec![0, 1, 2];
    let freqs = vec![3, 3, 3];
    let data = encoder.encode(None, &docids, &freqs).to_vec();
    assert_eq!(data[0], 0);
    assert_eq!(data[1], 2);
    decoder.decode(&data, None, 3);
    assert_eq!(decoder.docid(), 0);
    assert!(decoder.next());
    assert_eq!(decoder.docid(), 1);
    assert_eq!(decoder.freq(), 3);
}
