use bm25::vint::{decode_vint32, decode_vint64, encode_vint32, encode_vint64};

#[test]
fn test_vint32_1() {
    let mut buf = Vec::new();

    for _ in 0..100000 {
        let val = rand::random::<u32>();
        encode_vint32(val, &mut buf);
        let mut data = buf.as_slice();
        assert_eq!(val, decode_vint32(&mut data));
        buf.clear();
    }
}

#[test]
fn test_vint32_2() {
    let mut buf = Vec::new();
    let mut reference = Vec::new();

    for _ in 0..100000 {
        let val = rand::random::<u32>();
        encode_vint32(val, &mut buf);
        reference.push(val);
    }
    let mut data = buf.as_slice();
    for i in 0..100000 {
        let val = decode_vint32(&mut data);
        assert_eq!(reference[i], val);
    }
}

#[test]
fn test_vint64() {
    let mut buf = Vec::new();

    for _ in 0..100000 {
        let val = rand::random::<u64>();
        encode_vint64(val, &mut buf);
        let mut data = buf.as_slice();
        assert_eq!(val, decode_vint64(&mut data));
        buf.clear();
    }
}

#[test]
fn test_vint64_2() {
    let mut buf = Vec::new();
    let mut reference = Vec::new();

    for _ in 0..100000 {
        let val = rand::random::<u64>();
        encode_vint64(val, &mut buf);
        reference.push(val);
    }
    let mut data = buf.as_slice();
    for i in 0..100000 {
        let val = decode_vint64(&mut data);
        assert_eq!(reference[i], val);
    }
}

#[test]
fn vint_exact_bytes() {
    let mut buf = Vec::new();
    encode_vint32(0, &mut buf);
    assert_eq!(buf, vec![0x80]);
    buf.clear();
    encode_vint32(127, &mut buf);
    assert_eq!(buf, vec![0xff]);
    buf.clear();
    encode_vint32(128, &mut buf);
    assert_eq!(buf, vec![0x00, 0x81]);
    buf.clear();
    encode_vint32(300, &mut buf);
    assert_eq!(buf, vec![0x2c, 0x82]);
    buf.clear();
    encode_vint32(u32::MAX, &mut buf);
    assert_eq!(buf, vec![0x7f, 0x7f, 0x7f, 0x7f, 0x8f]);
    buf.clear();
    encode_vint64(u64::MAX, &mut buf);
    assert_eq!(buf.len(), 10);
    assert_eq!(buf[9], 0x81);
}

#[test]
fn vint_decode_moves_past_value() {
    let data = vec![0x2c, 0x82, 0x85, 0x00];
    let mut rest = data.as_slice();
    assert_eq!(decode_vint32(&mut rest), 300);
    assert_eq!(rest, &[0x85, 0x00]);
    assert_eq!(decode_vint32(&mut rest), 5);
    assert_eq!(rest, &[0x00]);
}
