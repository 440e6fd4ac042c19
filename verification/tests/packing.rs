use chromaprint::FingerprintCompressor;

#[test]
fn copy_three_bit_fields_from_buffer_start() {
    let mut output: Vec<u8> = vec![0, 0];
    FingerprintCompressor::copy_significant_bits(&vec![5, 7, 2], &mut output, 0, 0, 3);
    assert_eq!(output, vec![0xBD, 0x00]);
}

#[test]
fn copy_fields_straddle_bytes() {
    let mut output: Vec<u8> = vec![0xAB, 0x00, 0x00];
    FingerprintCompressor::copy_significant_bits(&vec![0, 0, 7], &mut output, 1, 0, 3);
    assert_eq!(output, vec![0xAB, 0x03, 0x80]);
}

#[test]
fn copy_overwrites_only_its_own_bits() {
    let mut output: Vec<u8> = vec![0xFF, 0x00, 0x0F];
    FingerprintCompressor::copy_significant_bits(&vec![5, 7, 2], &mut output, 0, 3, 3);
    assert_eq!(output, vec![247, 160, 15]);
}

#[test]
fn copy_clears_bits_of_zero_fields() {
    let mut output: Vec<u8> = vec![0xFF, 0xFF];
    FingerprintCompressor::copy_significant_bits(&vec![1, 7, 0, 5], &mut output, 0, 2, 3);
    assert_eq!(output, vec![0xCF, 0x17]);
}

#[test]
fn copy_five_bit_fields_behind_a_byte_offset() {
    let mut output: Vec<u8> = vec![0, 0, 0];
    FingerprintCompressor::copy_significant_bits(&vec![0x16, 0x1F, 0x09], &mut output, 1, 1, 5);
    assert_eq!(output, vec![0, 91, 233]);
}

#[test]
fn copy_single_bit_fields() {
    let mut output: Vec<u8> = vec![0xFF];
    FingerprintCompressor::copy_significant_bits(&vec![0, 1, 0], &mut output, 0, 1, 1);
    assert_eq!(output, vec![0xAF]);
}

#[test]
fn copy_whole_bytes() {
    let mut output: Vec<u8> = vec![1, 2, 3];
    FingerprintCompressor::copy_significant_bits(&vec![0xAB, 0xCD], &mut output, 1, 0, 8);
    assert_eq!(output, vec![1, 0xAB, 0xCD]);
}

#[test]
fn copy_of_nothing_changes_nothing() {
    let mut output: Vec<u8> = vec![1, 2, 3];
    FingerprintCompressor::copy_significant_bits(&vec![], &mut output, 3, 0, 3);
    assert_eq!(output, vec![1, 2, 3]);
    FingerprintCompressor::copy_significant_bits(&vec![], &mut output, 700, 9000, 0);
    assert_eq!(output, vec![1, 2, 3]);
    FingerprintCompressor::copy_significant_bits(&vec![], &mut output, 0, 5, 64);
    assert_eq!(output, vec![1, 2, 3]);
    let mut none: Vec<u8> = vec![];
    FingerprintCompressor::copy_significant_bits(&vec![], &mut none, 4, 0, 5);
    assert_eq!(none, Vec::<u8>::new());
}

#[test]
fn assemble_lays_out_header_and_regions() {
    let output = FingerprintCompressor::assemble(&vec![7, 7, 7], &vec![20, 20], 9, 5);
    assert_eq!(output, vec![9, 0, 0, 0, 255, 128, 165, 0]);
}

#[test]
fn assemble_count_field_takes_the_high_bytes() {
    let count: usize = ((1u64 << 40) | (2u64 << 48) | (3u64 << 56)) as usize;
    let output = FingerprintCompressor::assemble(&vec![7, 1, 7], &vec![21, 31], 9, count);
    assert_eq!(output, vec![9, 1, 2, 3, 231, 128, 175, 192]);
}

#[test]
fn assemble_count_field_is_zero_for_small_counts() {
    let output = FingerprintCompressor::assemble(&vec![], &vec![], 3, 0x00ff_ffff_ffff);
    assert_eq!(output, vec![3, 0, 0, 0]);
}

#[test]
fn assemble_region_sizes() {
    for (normal, exceptional, expected) in
        [(0usize, 0usize, 4usize), (1, 0, 5), (2, 0, 5), (3, 0, 6), (8, 0, 7), (0, 1, 5), (0, 2, 6), (3, 3, 8), (8, 8, 12)]
    {
        let output = FingerprintCompressor::assemble(&vec![0u8; normal], &vec![0u8; exceptional], 0, 0);
        assert_eq!(output.len(), expected);
    }
}
