use tile_car::read_uvarint;

fn encode(mut v: u64) -> Vec<u8> {
    let mut out = Vec::new();
    loop {
        let low = (v % 128) as u8;
        v /= 128;
        if v == 0 {
            out.push(low);
            return out;
        }
        out.push(low + 128);
    }
}

#[test]
fn uvarint_single_byte() {
    assert_eq!(read_uvarint(&[0x05]), Some((5, 1)));
    assert_eq!(read_uvarint(&[0x00, 0xff]), Some((0, 1)));
    assert_eq!(read_uvarint(&[0x7f]), Some((127, 1)));
}

#[test]
fn uvarint_two_bytes() {
    assert_eq!(read_uvarint(&[0xac, 0x02]), Some((300, 2)));
    assert_eq!(read_uvarint(&[0x80, 0x01, 0x99]), Some((128, 2)));
}

#[test]
fn uvarint_empty_and_unterminated() {
    assert_eq!(read_uvarint(&[]), None);
    assert_eq!(read_uvarint(&[0x80]), None);
    assert_eq!(read_uvarint(&[0xff, 0xff, 0xff]), None);
}

#[test]
fn uvarint_round_trip_values() {
    let values: [u64; 9] = [0, 1, 127, 128, 255, 16_384, 1 << 35, (1 << 62) + 12_345, (1 << 63) - 1];
    for v in values {
        let mut bytes = encode(v);
        let n = bytes.len();
        assert!(n <= 9);
        assert_eq!(read_uvarint(&bytes), Some((v, n)));
        bytes.extend_from_slice(&[0x01, 0x02]);
        assert_eq!(read_uvarint(&bytes), Some((v, n)));
    }
}

#[test]
fn uvarint_ten_continuation_bytes_fail() {
    let bytes = [0x80u8; 10];
    assert_eq!(read_uvarint(&bytes), None);
    let mut longer = vec![0xffu8; 12];
    longer.push(0x01);
    assert_eq!(read_uvarint(&longer), None);
}

#[test]
fn uvarint_ten_byte_maximum() {
    let mut bytes = vec![0xffu8; 9];
    bytes.push(0x01);
    assert_eq!(read_uvarint(&bytes), None);
    let mut wide = vec![0xffu8; 9];
    wide.push(0x7f);
    assert_eq!(read_uvarint(&wide), None);
}

#[test]
fn uvarint_nine_byte_maximum() {
    let mut bytes = vec![0xffu8; 8];
    bytes.push(0x7f);
    assert_eq!(read_uvarint(&bytes), Some(((1u64 << 63) - 1, 9)));
    let mut nine_continuations = vec![0x80u8; 9];
    nine_continuations.push(0x00);
    assert_eq!(read_uvarint(&nine_continuations), None);
}
