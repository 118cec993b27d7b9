use bm25::compress_block::{BlockDecoder, BlockEncoder};

#[test]
fn test_block_encoder() {
    let mut encoder = BlockEncoder::new();
    let block = (0..128).collect::<Vec<_>>();
    let (num_bits, compressed) = encoder.compress_block_sorted(&block, 0);
    let mut decoder = BlockDecoder::new();
    let bytes = decoder.decompress_block_sorted(compressed, num_bits, 0);
    assert_eq!(decoder.output(), block);
    assert_eq!(bytes, compressed.len());
}

#[test]
fn test_block_encoder_unsorted() {
    let mut encoder = BlockEncoder::new();
    let block = (0..128).collect::<Vec<_>>();
    let (num_bits, compressed) = encoder.compress_block_unsorted(&block);
    let mut decoder = BlockDecoder::new();
    let bytes = decoder.decompress_block_unsorted(compressed, num_bits);
    assert_eq!(decoder.output(), block);
    assert_eq!(bytes, compressed.len());
}

#[test]
fn test_block_encoder_random() {
    let mut encoder = BlockEncoder::new();
    let mut block = rand::seq::index::sample(&mut rand::thread_rng(), 100000, 128)
        .into_iter()
        .map(|i| i as u32)
        .collect::<Vec<_>>();
    block.sort_unstable();
    let (num_bits, compressed) = encoder.compress_block_sorted(&block, 0);
    let mut decoder = BlockDecoder::new();
    let bytes = decoder.decompress_block_sorted(compressed, num_bits, 0);
    assert_eq!(decoder.output(), block);
    assert_eq!(bytes, compressed.len());
}

#[test]
fn test_block_encoder_unsorted_random() {
    let mut encoder = BlockEncoder::new();
    let block = rand::seq::index::sample(&mut rand::thread_rng(), 100000, 128)
        .into_iter()
        .map(|i| i as u32)
        .collect::<Vec<_>>();
    let (num_bits, compressed) = encoder.compress_block_unsorted(&block);
    let mut decoder = BlockDecoder::new();
    let bytes = decoder.decompress_block_unsorted(compressed, num_bits);
    assert_eq!(decoder.output(), block);
    assert_eq!(bytes, compressed.len());
}

#[test]
fn bitpacked_widths_and_sizes() {
    let mut encoder = BlockEncoder::new();
    let block: Vec<u32> = (0..128).map(|i| i * 3 + 10).collect();
    let (num_bits, compressed) = encoder.compress_block_sorted(&block, 9);
    // gaps less one are 0 then 2: two bits each
    assert_eq!(num_bits, 2);
    assert_eq!(compressed.len(), 32);
    let compressed = compressed.to_vec();
    let mut decoder = BlockDecoder::new();
    assert_eq!(decoder.decompress_block_sorted(&compressed, 2, 9), 32);
    assert_eq!(decoder.output(), block);
    let values: Vec<u32> = (0..128).map(|i| (i * 7919) % 1000).collect();
    let (num_bits, compressed) = encoder.compress_block_unsorted(&values);
    assert_eq!(num_bits, 10);
    assert_eq!(compressed.len(), 160);
    assert!(compressed.iter().any(|&b| b != 0));
}

#[test]
fn test_block_encoder_vint_sorted() {
    let mut encoder = BlockEncoder::new();
    let block = (0..100).collect::<Vec<_>>();
    let compressed = encoder.compress_vint_sorted(&block, 0);
    let mut decoder = BlockDecoder::new();
    let bytes = decoder.decompress_vint_sorted(compressed, 0, 100);
    assert_eq!(decoder.output(), block);
    assert_eq!(bytes, compressed.len());
}

#[test]
fn test_block_encoder_vint_unsorted() {
    let mut encoder = BlockEncoder::new();
    let block = (0..100).collect::<Vec<_>>();
    let compressed = encoder.compress_vint_unsorted(&block);
    let mut decoder = BlockDecoder::new();
    let bytes = decoder.decompress_vint_unsorted(compressed, 100);
    assert_eq!(decoder.output(), block);
    assert_eq!(bytes, compressed.len());
}

#[test]
fn test_block_encoder_vint_sorted_random() {
    let mut encoder = BlockEncoder::new();
    let mut block = rand::seq::index::sample(&mut rand::thread_rng(), 100000, 100)
        .into_iter()
        .map(|i| i as u32)
        .collect::<Vec<_>>();
    block.sort_unstable();
    let compressed = encoder.compress_vint_sorted(&block, 0);
    let mut decoder = BlockDecoder::new();
    let bytes = decoder.decompress_vint_sorted(compressed, 0, 100);
    assert_eq!(decoder.output(), block);
    assert_eq!(bytes, compressed.len());
}

#[test]
fn test_block_encoder_vint_unsorted_random() {
    let mut encoder = BlockEncoder::new();
    let block = rand::seq::index::sample(&mut rand::thread_rng(), 100000, 100)
        .into_iter()
        .map(|i| i as u32)
        .collect::<Vec<_>>();
    let compressed = encoder.compress_vint_unsorted(&block);
    let mut decoder = BlockDecoder::new();
    let bytes = decoder.decompress_vint_unsorted(compressed, 100);
    assert_eq!(decoder.output(), block);
    assert_eq!(bytes, compressed.len());
}

#[test]
fn vint_block_exact_bytes_and_tail() {
    let mut encoder = BlockEncoder::new();
    let compressed = encoder.compress_vint_sorted(&[10, 10, 300], 5).to_vec();
    assert_eq!(compressed, vec![0x85, 0x80, 0x22, 0x82]);
    let mut data = compressed.clone();
    data.push(0x99);
    let mut decoder = BlockDecoder::new();
    assert_eq!(decoder.decompress_vint_sorted(&data, 5, 3), 4);
    assert_eq!(decoder.output(), &[10, 10, 300]);
}
