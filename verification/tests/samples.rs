use chromaprint::samples::samples_from_s16le;

#[test]
fn samples_of_no_bytes() {
    assert_eq!(samples_from_s16le(&[]), Vec::<i16>::new());
    assert_eq!(samples_from_s16le(&[0x12]), Vec::<i16>::new());
}

#[test]
fn samples_are_little_endian_and_signed() {
    assert_eq!(
        samples_from_s16le(&[0x01, 0x00, 0xff, 0xff, 0x00, 0x80, 0xff, 0x7f, 0x34, 0x12]),
        vec![1, -1, -32768, 32767, 0x1234]
    );
}

#[test]
fn samples_leave_out_a_last_odd_byte() {
    assert_eq!(samples_from_s16le(&[0x02, 0x01, 0x99]), vec![0x0102]);
}

#[test]
fn samples_agree_with_from_le_bytes() {
    let bytes: Vec<u8> = (0..=255u8).flat_map(|b| [b, b.wrapping_mul(37).wrapping_add(11)]).collect();
    let expected: Vec<i16> = bytes.chunks_exact(2).map(|c| i16::from_le_bytes([c[0], c[1]])).collect();
    assert_eq!(samples_from_s16le(&bytes), expected);
}
