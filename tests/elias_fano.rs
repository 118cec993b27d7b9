use bm25::elias_fano::{EliasFanoDecode, EliasFanoEncode};

fn random_block() -> (Vec<u32>, Vec<u32>) {
    let mut docids = rand::seq::index::sample(&mut rand::thread_rng(), 10000, 1000)
        .into_iter()
        .map(|x| x as u32 + 10)
        .collect::<Vec<_>>();
    docids.sort_unstable();
    let freqs = (0..1000)
        .map(|_| rand::random::<u32>() % 1000 + 1)
        .collect::<Vec<_>>();
    (docids, freqs)
}

#[test]
fn test_next() {
    let mut encoder = EliasFanoEncode::new();
    let mut decoder = EliasFanoDecode::new();
    let (docids, freqs) = random_block();
    let offset = Some(9);

    println!("docids: {:?}", docids);
    println!("freqs: {:?}", freqs);

    let data = encoder.encode(offset, &mut docids.clone(), &mut freqs.clone());
    decoder.decode(data, offset, docids.len() as u32);

    for i in 0..docids.len() {
        assert_eq!(docids[i], decoder.docid());
        assert_eq!(freqs[i], decoder.freq());
        if i + 1 < docids.len() {
            assert!(decoder.next());
        } else {
            assert!(!decoder.next());
        }
    }
}

#[test]
fn test_seek() {
    let mut encoder = EliasFanoEncode::new();
    let mut decoder = EliasFanoDecode::new();
    let (docids, freqs) = random_block();
    let offset = Some(9);

    println!("docids: {:?}", docids);
    println!("freqs: {:?}", freqs);

    let data = encoder.encode(offset, &mut docids.clone(), &mut freqs.clone());
    decoder.decode(data, offset, docids.len() as u32);

    for i in 0..docids.len() {
        assert_eq!(docids[i], decoder.docid());
        assert_eq!(freqs[i], decoder.freq());
        if i + 1 < docids.len() {
            assert!(decoder.seek(docids[i] + 1));
        } else {
            assert!(!decoder.seek(docids[i] + 1));
        }
    }
}

#[test]
fn test_seek_long() {
    let mut encoder = EliasFanoEncode::new();
    let mut decoder = EliasFanoDecode::new();
    let (docids, freqs) = random_block();
    let offset = Some(9);

    println!("docids: {:?}", docids);
    println!("freqs: {:?}", freqs);

    let data = encoder.encode(offset, &mut docids.clone(), &mut freqs.clone());
    decoder.decode(data, offset, docids.len() as u32);

    assert_eq!(docids[0], decoder.docid());
    assert_eq!(freqs[0], decoder.freq());

    assert!(decoder.seek(docids.last().unwrap().clone()));
    assert_eq!(docids.last().unwrap().clone(), decoder.docid());
}

#[test]
fn elias_fano_exact_bytes() {
    let mut encoder = EliasFanoEncode::new();
    let data = encoder.encode(None, &[1, 3], &[1, 2]).to_vec();
    let mut expected = vec![1, 0, 0, 0, 0, 0, 0, 0, 8, 0, 0, 0, 0, 0, 0, 0];
    expected.extend_from_slice(&[0x8a, 0x03, 0, 0, 0, 0, 0, 0]);
    assert_eq!(data, expected);
}

#[test]
fn elias_fano_pointers_and_wide_values() {
    let mut encoder = EliasFanoEncode::new();
    let mut decoder = EliasFanoDecode::new();
    // a sparse block long enough to hold zero pointers
    let docids: Vec<u32> = (0..3000u32).map(|i| i * 7 + 1).collect();
    let freqs: Vec<u32> = (0..3000u32).map(|i| i % 9 + 1).collect();
    let data = encoder.encode(None, &docids, &freqs).to_vec();
    decoder.decode(&data, None, docids.len() as u32);
    for i in 0..docids.len() {
        assert_eq!((decoder.docid(), decoder.freq()), (docids[i], freqs[i]));
        decoder.next();
    }
    // the largest docids and frequencies
    let docids = vec![u32::MAX - 2, u32::MAX - 1];
    let freqs = vec![u32::MAX, 1];
    let data = encoder.encode(Some(5), &docids, &freqs).to_vec();
    decoder.decode(&data, Some(5), 2);
    assert_eq!((decoder.docid(), decoder.freq()), (u32::MAX - 2, u32::MAX));
    assert!(decoder.next());
    assert_eq!((decoder.docid(), decoder.freq()), (u32::MAX - 1, 1));
    assert!(!decoder.next());
}

#[test]
fn elias_fano_every_frequency_width() {
    let mut encoder = EliasFanoEncode::new();
    let mut decoder = EliasFanoDecode::new();
    for width in 0..=32u32 {
        let docids: Vec<u32> = (0..128u32).map(|i| 20 + i * 5).collect();
        let freqs: Vec<u32> = (0..128u32)
            .map(|i| {
                if width == 0 {
                    1
                } else {
                    let top = 1u64 << (width - 1);
                    (((top + i as u64 * 7919) % (top * 2)) as u32).max(1)
                }
            })
            .collect();
        let data = encoder.encode(Some(3), &docids, &freqs).to_vec();
        assert_eq!(data[0] as u32, 32 - (freqs.iter().max().unwrap() - 1).leading_zeros());
        decoder.decode(&data, Some(3), 128);
        for k in 0..128 {
            assert_eq!((decoder.docid(), decoder.freq()), (docids[k], freqs[k]));
            assert_eq!(decoder.next(), k + 1 < 128);
        }
    }
}
