use rustarch::error::AppError;
use rustarch::hamming::{decode_block, encode_block, BlockStatus, HammingCode, HammingTables};
use rustarch::rs_code::{decode_block as rs_decode_block, DATA_SYMBOLS, PARITY_SYMBOLS};
use rustarch::rs_field::Gf256;
use rustarch::rs_stream::{NoneFec, ReedSolomonCode};

fn hamming_round_trip(codec: &HammingCode, data: &[u8]) {
    let encoded = codec.encode(data).expect("encode must not fail");
    let (decoded, report) = codec.decode(&encoded).expect("decode must not fail");
    assert_eq!(report.blocks_uncorrectable, 0);
    assert_eq!(decoded, data);
}

#[test]
fn round_trip_without_errors_7_4() {
    let codec = HammingCode::new_7_4();
    for case in [
        &b""[..],
        &b"\x00"[..],
        &b"\xFF"[..],
        &[0x00, 0xFF, 0xAA, 0x55, 0x0F, 0xF0][..],
        b"Media library test payload 1234567890",
    ] {
        hamming_round_trip(&codec, case);
    }
}

#[test]
fn round_trip_without_errors_15_11() {
    let codec = HammingCode::new_15_11();
    for case in [
        &b""[..],
        &b"\x00"[..],
        &[0x00, 0xFF, 0xAA, 0x55, 0x0F, 0xF0][..],
        b"Media library test payload 1234567890",
    ] {
        hamming_round_trip(&codec, case);
    }
}

#[test]
fn round_trip_multi_chunk() {
    let codec = HammingCode::new_15_11();
    let data: Vec<u8> = (0..5_000_000u32).map(|i| (i % 251) as u8).collect();
    hamming_round_trip(&codec, &data);
}

#[test]
fn single_bit_error_is_corrected_in_every_position() {
    for (k, m) in [(4usize, 3usize), (11, 4)] {
        let n = k + m;
        let block_len = n + 1;
        let tables = HammingTables::build(k, m, n);

        let patterns: Vec<u32> = vec![
            0,
            (1u32 << k) - 1,
            (0..k).fold(0u32, |acc, i| if i % 2 == 0 { acc | (1 << i) } else { acc }),
            (0..k).fold(0u32, |acc, i| if i % 3 == 0 { acc | (1 << i) } else { acc }),
        ];

        for pattern in patterns {
            let codeword = encode_block(&tables, pattern);
            for bit_pos in 0..block_len {
                let corrupted = codeword ^ (1u32 << bit_pos);

                let (decoded, status) = decode_block(&tables, corrupted);
                assert!(matches!(status, BlockStatus::Corrected), "single error must be corrected (k={k}, bit {bit_pos})");
                assert_eq!(decoded, pattern, "wrong correction of bit {bit_pos} (k={k})");
            }
        }
    }
}

#[test]
fn double_bit_error_is_detected_as_uncorrectable() {
    let (k, m) = (4usize, 3usize);
    let n = k + m;
    let block_len = n + 1;
    let tables = HammingTables::build(k, m, n);
    let pattern = 0b1010u32;
    let codeword = encode_block(&tables, pattern);

    let mut total = 0;
    let mut detected = 0;
    for i in 0..block_len {
        for j in (i + 1)..block_len {
            total += 1;
            let corrupted = codeword ^ (1u32 << i) ^ (1u32 << j);

            let (_, status) = decode_block(&tables, corrupted);
            if matches!(status, BlockStatus::Uncorrectable) {
                detected += 1;
            }
        }
    }
    assert_eq!(detected, total, "not every double error was detected");
}

#[test]
fn decode_reports_uncorrectable_blocks_via_artifact() {
    let codec = HammingCode::new_7_4();
    let data = [0x12u8, 0x34];

    let mut encoded_bytes = codec.encode(&data).unwrap();
    encoded_bytes[8] ^= 0b0000_0011;

    let (_decoded, report) = codec.decode(&encoded_bytes).expect("decode must not fail on an uncorrectable error");
    assert!(report.blocks_uncorrectable > 0);
}

#[test]
fn hamming_block_round_trip_reports_no_errors() {
    let tables = HammingTables::build(11, 4, 15);
    for data in [0u32, 1, 0x7FF, 0x555, 0x2AA] {
        let codeword = encode_block(&tables, data);
        assert_eq!(decode_block(&tables, codeword), (data, BlockStatus::NoErrors));
    }
}

#[test]
fn hamming_7_4_codeword_of_known_value() {
    // Data 1011 at positions 3, 5, 6, 7; parity p1 = 0, p2 = 1, p4 = 0;
    // the overall parity of 0110011 is 0.
    let tables = HammingTables::build(4, 3, 7);
    assert_eq!(encode_block(&tables, 0b1011), 0b0110_0110);
}

#[test]
fn hamming_stream_layout() {
    let codec = HammingCode::new_7_4();
    let encoded = codec.encode(&[0xF0]).unwrap();
    // size header, then two 8-bit codewords: 1111 and 0000.
    assert_eq!(encoded.len(), 8 + 2);
    assert_eq!(&encoded[..8], &1u64.to_le_bytes());
    assert_eq!(encoded[9], 0);
    let codec15 = HammingCode::new_15_11();
    // 8 data bits make one 16-bit codeword.
    assert_eq!(codec15.encode(&[0xAB]).unwrap().len(), 8 + 2);
    // 24 data bits make three 11-bit groups, 48 bits of codewords.
    assert_eq!(codec15.encode(&[1, 2, 3]).unwrap().len(), 8 + 6);
}

#[test]
fn hamming_rejects_imperfect_dimensions() {
    let codec = HammingCode { data_bits: 5, parity_bits: 3 };
    assert!(matches!(codec.encode(b"abc"), Err(AppError::Fec(_))));
    assert!(matches!(codec.decode(&[0u8; 16]), Err(AppError::Fec(_))));
    let no_checks = HammingCode { data_bits: 4, parity_bits: 0 };
    assert!(matches!(no_checks.encode(b"abc"), Err(AppError::Fec(_))));
    let too_wide = HammingCode { data_bits: 57, parity_bits: 6 };
    assert!(matches!(too_wide.encode(b"abc"), Err(AppError::Fec(_))));
}

#[test]
fn hamming_decode_refuses_short_streams() {
    let codec = HammingCode::new_7_4();
    assert!(matches!(codec.decode(&[1, 2, 3]), Err(AppError::Fec(_))));
    let mut encoded = codec.encode(b"hello").unwrap();
    encoded.pop();
    assert!(matches!(codec.decode(&encoded), Err(AppError::Fec(_))));
}

#[test]
fn hamming_corrects_a_flipped_bit_in_the_stream() {
    let codec = HammingCode::new_15_11();
    let data = b"error correcting".to_vec();
    let mut encoded = codec.encode(&data).unwrap();
    encoded[10] ^= 0b0001_0000;
    let (decoded, report) = codec.decode(&encoded).unwrap();
    assert_eq!(decoded, data);
    assert_eq!(report.blocks_corrected, 1);
    assert_eq!(report.blocks_uncorrectable, 0);
}

fn test_data(size: usize) -> Vec<u8> {
    (0..size).map(|index| ((index * 73 + index / 7 + 19) % 256) as u8).collect()
}

#[test]
fn artifact_round_trip_uses_full_and_shortened_blocks() {
    let cases = [(0, 0), (1, 33), (222, 254), (223, 255), (224, 288), (445, 509), (446, 510)];

    for (source_size, encoded_size) in cases {
        let source = test_data(source_size);
        let encoded = ReedSolomonCode.encode(&source);

        assert_eq!(encoded.len(), encoded_size);
        let (decoded, report) = ReedSolomonCode.decode(&encoded).unwrap();
        assert_eq!(decoded, source);
        assert_eq!(report.blocks_corrected, 0);
        assert_eq!(report.blocks_uncorrectable, 0);
    }
}

#[test]
fn corrects_up_to_sixteen_symbol_errors() {
    for source_size in [1, DATA_SYMBOLS - 1, DATA_SYMBOLS] {
        for errors_count in 1..=16 {
            let source = test_data(source_size);
            let mut encoded = ReedSolomonCode.encode(&source);

            for (index, byte) in encoded.iter_mut().take(errors_count).enumerate() {
                *byte ^= (index as u8).wrapping_add(1);
            }

            let (decoded, report) = ReedSolomonCode.decode(&encoded).unwrap();
            assert_eq!(decoded, source);
            assert_eq!(report.blocks_processed, 1);
            assert_eq!(report.blocks_corrected, 1);
            assert_eq!(report.blocks_uncorrectable, 0);
        }
    }
}

#[test]
fn corrects_sixteen_scattered_errors_in_every_block() {
    let source = test_data(2 * DATA_SYMBOLS + 50);
    let mut encoded = ReedSolomonCode.encode(&source);
    let blocks = [(0usize, 255usize), (255, 255), (510, encoded.len() - 510)];
    for (start, size) in blocks {
        for k in 0..16 {
            let position = start + (k * 7) % size;
            encoded[position] ^= 0xA5;
        }
    }
    let (decoded, report) = ReedSolomonCode.decode(&encoded).unwrap();
    assert_eq!(decoded, source);
    assert_eq!(report.blocks_processed, 3);
    assert_eq!(report.blocks_corrected, 3);
    assert_eq!(report.blocks_uncorrectable, 0);
}

#[test]
fn rs_block_within_reach_comes_back_as_the_codeword() {
    let source = test_data(DATA_SYMBOLS);
    let sent = ReedSolomonCode.encode(&source);
    let gf = Gf256::new();
    let mut block = sent.clone();
    for position in [0usize, 3, 17, 100, 200, 254] {
        block[position] ^= 0x3C;
    }
    assert_eq!(rs_decode_block(&gf, &mut block, PARITY_SYMBOLS), BlockStatus::Corrected);
    assert_eq!(block, sent);
    let mut clean = sent.clone();
    assert_eq!(rs_decode_block(&gf, &mut clean, PARITY_SYMBOLS), BlockStatus::NoErrors);
    assert_eq!(clean, sent);
}

#[test]
fn rejects_uncorrectable_block() {
    let source = test_data(DATA_SYMBOLS);
    let mut encoded = ReedSolomonCode.encode(&source);

    for (index, byte) in encoded.iter_mut().take(17).enumerate() {
        *byte ^= (index as u8).wrapping_add(1);
    }

    assert!(matches!(ReedSolomonCode.decode(&encoded), Err(AppError::Fec(_))));
}

#[test]
fn rejects_stream_too_short_for_parity() {
    for size in 1..=PARITY_SYMBOLS {
        let bytes = vec![0u8; size];
        let result = ReedSolomonCode.decode(&bytes);
        assert!(matches!(result, Err(AppError::Fec(_))), "size={size}");
    }
}

#[test]
fn rejects_truncated_codeword() {
    let source = test_data(DATA_SYMBOLS);
    let mut truncated = ReedSolomonCode.encode(&source);
    truncated.pop();
    let result = ReedSolomonCode.decode(&truncated);

    assert!(matches!(result, Err(AppError::Fec(_))));
}

#[test]
fn none_fec_passes_data_through() {
    let data = test_data(50);
    assert_eq!(NoneFec.encode(&data), data);
    let (decoded, report) = NoneFec.decode(&data).unwrap();
    assert_eq!(decoded, data);
    assert_eq!(report.blocks_processed, 0);
}
