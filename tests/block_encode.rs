use bm25::block_encode::{BlockDecode, BlockEncode, EncodeOption};

#[test]
fn both_codecs_round_trip() {
    let docids: Vec<u32> = (0..128u32).map(|i| 100 + i * 3 + (i % 4)).collect();
    let freqs: Vec<u32> = (0..128u32).map(|i| i % 17 + 1).collect();
    for option in [EncodeOption::DeltaBitpack, EncodeOption::EliasFano] {
        let mut enc = BlockEncode::new(option);
        let mut dec = BlockDecode::new(option);
        let data = enc.encode(Some(50), &docids, &freqs).to_vec();
        dec.decode(&data, Some(50), docids.len() as u32);
        for i in 0..docids.len() {
            assert_eq!(dec.docid(), docids[i]);
            assert_eq!(dec.freq(), freqs[i]);
            assert_eq!(dec.next(), i + 1 < docids.len());
        }
        let mut dec = BlockDecode::new(option);
        dec.decode(&data, Some(50), docids.len() as u32);
        assert!(dec.seek(200));
        assert_eq!(dec.docid(), *docids.iter().find(|&&d| d >= 200).unwrap());
        assert!(!dec.seek(u32::MAX));
    }
}

#[test]
fn codecs_differ_in_layout() {
    let mut a = BlockEncode::new(EncodeOption::DeltaBitpack);
    let mut b = BlockEncode::new(EncodeOption::EliasFano);
    let x = a.encode(None, &[1, 3], &[1, 2]).to_vec();
    let y = b.encode(None, &[1, 3], &[1, 2]).to_vec();
    // gaps less one: 1, 1 at one bit; frequencies less one: 0, 1 at one bit
    assert_eq!(x, vec![1, 1, 0b11, 0b10]);
    assert_eq!(y.len(), 24);
}
