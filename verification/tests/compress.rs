use base64::prelude::BASE64_URL_SAFE;
use base64::Engine;
use chromaprint::compressor::MAX_FINGERPRINT_LEN;
use chromaprint::FingerprintCompressor;

fn decoded(text: &str) -> Vec<u8> {
    BASE64_URL_SAFE.decode(text).unwrap()
}

fn long_gaps(d: u32) -> usize {
    let mut last: u32 = 0;
    let mut count: usize = 0;
    for bit in 1..=32u32 {
        if (d >> (bit - 1)) & 1 == 1 {
            if bit - last >= 7 {
                count += 1;
            }
            last = bit;
        }
    }
    count
}

#[test]
fn compress_is_deterministic() {
    let raw: Vec<u32> = vec![0x1234, 0x1235, 0x8080_8080, 0, 0xffff_ffff];
    for algorithm in [0u8, 1, 200] {
        assert_eq!(
            FingerprintCompressor::compress(&raw, algorithm),
            FingerprintCompressor::compress(&raw, algorithm)
        );
    }
}

#[test]
fn empty_input_is_header_only() {
    assert_eq!(FingerprintCompressor::compress(&[], 1), "AQAAAA==");
    for algorithm in [0u8, 1, 127, 255] {
        let text = FingerprintCompressor::compress(&[], algorithm);
        assert_eq!(decoded(&text), vec![algorithm, 0, 0, 0]);
        assert_eq!(FingerprintCompressor::encode(&[], algorithm), vec![algorithm, 0, 0, 0]);
    }
}

#[test]
fn header_holds_the_algorithm() {
    let raw: Vec<u32> = vec![0xdead_beef, 0x0bad_f00d, 7];
    for algorithm in 0..=255u8 {
        let text = FingerprintCompressor::compress(&raw, algorithm);
        assert_eq!(decoded(&text)[0], algorithm);
        assert_eq!(FingerprintCompressor::encode(&raw, algorithm)[0], algorithm);
    }
}

#[test]
fn encoded_length_follows_the_code_counts() {
    let inputs: Vec<Vec<u32>> = vec![
        vec![],
        vec![1],
        vec![0xdead_beef, 0xdead_beef],
        vec![0x81, 0x8000_0000, 0xffff_ffff, 0],
        vec![0x1234, 0x1235, 0x8080_8080],
        vec![0x8000_0000; 9],
        (0..100u32).map(|i| i.wrapping_mul(0x9e37_79b9)).collect(),
    ];
    for raw in inputs {
        let diffs = FingerprintCompressor::differences(&raw);
        let normal: usize = raw.len() + diffs.iter().map(|d| d.count_ones() as usize).sum::<usize>();
        let exceptional: usize = diffs.iter().map(|d| long_gaps(*d)).sum::<usize>();
        let expected = 4 + (3 * normal + 7) / 8 + (5 * exceptional + 7) / 8;
        assert_eq!(FingerprintCompressor::encode(&raw, 1).len(), expected);
        assert_eq!(decoded(&FingerprintCompressor::compress(&raw, 1)).len(), expected);
    }
}

#[test]
fn single_element_text() {
    assert_eq!(FingerprintCompressor::encode(&[0x0000_0001], 0), vec![0, 0, 0, 0, 0x20]);
    assert_eq!(FingerprintCompressor::compress(&[0x0000_0001], 0), "AAAAACA=");
    assert_eq!(FingerprintCompressor::compress(&[0x0000_0001], 1), "AQAAACA=");
}

#[test]
fn repeated_value_text() {
    let raw = [0xdead_beefu32, 0xdead_beef];
    assert_eq!(
        FingerprintCompressor::encode(&raw, 2),
        vec![2, 0, 0, 0, 36, 148, 74, 36, 148, 81, 73, 18, 81, 0]
    );
    assert_eq!(FingerprintCompressor::compress(&raw, 2), "AgAAACSUSiSUUUkSUQA=");
}

#[test]
fn exceptional_codes_take_five_bits_each() {
    assert_eq!(FingerprintCompressor::encode(&[0x8000_0000], 3), vec![3, 0, 0, 0, 224, 200]);
    assert_eq!(FingerprintCompressor::compress(&[0x8000_0000], 3), "AwAAAODI");
    assert_eq!(
        FingerprintCompressor::encode(&[0x1234, 0x1235, 0x8080_8080], 7),
        vec![7, 0, 0, 0, 104, 198, 8, 41, 20, 155, 252, 0, 8, 64]
    );
    assert_eq!(
        FingerprintCompressor::compress(&[0x1234, 0x1235, 0x8080_8080], 7),
        "BwAAAGjGCCkUm_wACEA="
    );
    assert_eq!(
        FingerprintCompressor::compress(&[0x81, 0x8000_0000, 0xffff_ffff, 0], 255),
        "_wAAADwfwSSSSSSSSSSSSSSSQSSSSSSSSSSSSSSSSAAi"
    );
}

#[test]
fn fields_hold_the_codes_in_order() {
    let raw: Vec<u32> = vec![0x1234, 0x1235, 0x8080_8080, 0, 0xffff_ffff, 0x0102_0408];
    let (normal, exceptional) = FingerprintCompressor::symbol_streams(&raw);
    let bytes = decoded(&FingerprintCompressor::compress(&raw, 1));
    let field = |start: usize, width: usize, index: usize| -> u8 {
        let mut value: u8 = 0;
        for t in 0..width {
            let k = start + index * width + t;
            value = (value << 1) | ((bytes[k / 8] >> (7 - k % 8)) & 1);
        }
        value
    };
    for (k, code) in normal.iter().enumerate() {
        assert_eq!(field(32, 3, k), *code);
    }
    let second = 4 + (3 * normal.len() + 7) / 8;
    for (k, code) in exceptional.iter().enumerate() {
        assert_eq!(field(8 * second, 5, k), *code);
    }
    for k in 32 + 3 * normal.len()..8 * second {
        assert_eq!((bytes[k / 8] >> (7 - k % 8)) & 1, 0);
    }
    for k in 8 * second + 5 * exceptional.len()..8 * bytes.len() {
        assert_eq!((bytes[k / 8] >> (7 - k % 8)) & 1, 0);
    }
}

#[test]
fn text_uses_the_url_safe_alphabet() {
    let inputs: Vec<(Vec<u32>, u8)> = vec![
        (vec![], 0),
        (vec![], 0xfb),
        (vec![1], 0xff),
        (vec![0x81, 0x8000_0000, 0xffff_ffff, 0], 0xfe),
        ((0..50u32).map(|i| i.wrapping_mul(0x0101_0101)).collect(), 0x3e),
    ];
    for (raw, algorithm) in inputs {
        let text = FingerprintCompressor::compress(&raw, algorithm);
        assert!(text
            .chars()
            .all(|c| c.is_ascii_alphanumeric() || c == '-' || c == '_' || c == '='));
        assert_eq!(text.len() % 4, 0);
        assert!(!text.contains('+') && !text.contains('/'));
        assert!(text.trim_end_matches('=').len() + 2 >= text.len());
        assert!(!text.trim_end_matches('=').contains('='));
        let bytes = BASE64_URL_SAFE.decode(&text);
        assert!(bytes.is_ok());
        assert_eq!(bytes.unwrap(), FingerprintCompressor::encode(&raw, algorithm));
    }
}

#[test]
fn url_safe_characters_replace_plus_and_slash() {
    assert_eq!(FingerprintCompressor::compress(&[], 0xfb), "-wAAAA==");
    assert_eq!(FingerprintCompressor::compress(&[], 0xff), "_wAAAA==");
}

#[test]
fn try_compress_agrees_with_compress() {
    let raw: Vec<u32> = vec![0x1234, 0x1235, 0x8080_8080];
    assert!(raw.len() <= MAX_FINGERPRINT_LEN);
    assert_eq!(
        FingerprintCompressor::try_compress(&raw, 7),
        Some(FingerprintCompressor::compress(&raw, 7))
    );
    assert_eq!(FingerprintCompressor::try_compress(&[], 1), Some(String::from("AQAAAA==")));
}
