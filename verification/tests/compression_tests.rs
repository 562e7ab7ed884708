use rustarch::lz_window::{HashChain, SlidingWindow};
use rustarch::memory_budget::MemoryBudget;
use rustarch::compression::{compress_with, decompress_with, DeflateCompressor, NoneCompressor};
use rustarch::error::AppError;
use rustarch::huffman::HuffmanCompressor;
use rustarch::ids::CompressionId;
use rustarch::lz77::Lz77Compressor;
use rustarch::lzss::LzssCompressor;
use rustarch::rle::RleCompressor;

fn text_sample() -> Vec<u8> {
    let mut data = Vec::new();
    for i in 0..400 {
        data.extend_from_slice(b"the quick brown fox jumps over the lazy dog ");
        data.push((i % 7) as u8 + b'0');
    }
    data
}

fn noise(size: usize) -> Vec<u8> {
    let mut x: u32 = 0x1234_5678;
    (0..size)
        .map(|_| {
            x ^= x << 13;
            x ^= x >> 17;
            x ^= x << 5;
            (x >> 24) as u8
        })
        .collect()
}

#[test]
fn rle_writes_count_byte_pairs() {
    let (out, id) = RleCompressor.compress(b"aaab").unwrap();
    assert_eq!(id, CompressionId::RLE);
    assert_eq!(out, vec![3, b'a', 1, b'b']);
    let long = vec![7u8; 300];
    let (out, _) = RleCompressor.compress(&long).unwrap();
    assert_eq!(out, vec![255, 7, 45, 7]);
    assert_eq!(RleCompressor.decompress(&out).unwrap(), long);
}

#[test]
fn rle_round_trip_and_errors() {
    for data in [Vec::new(), b"abcabc".to_vec(), text_sample(), noise(1000)] {
        let (out, _) = RleCompressor.compress(&data).unwrap();
        assert_eq!(RleCompressor.decompress(&out).unwrap(), data);
    }
    assert!(matches!(RleCompressor.decompress(&[3, b'a', 2]), Err(AppError::Compression(_))));
    assert_eq!(RleCompressor.decompress(&[0, b'a', 2, b'b']).unwrap(), b"bb".to_vec());
}

#[test]
fn huffman_round_trip() {
    for data in [b"a".to_vec(), b"abracadabra".to_vec(), text_sample(), vec![0u8; 5000]] {
        let (out, id) = HuffmanCompressor.compress(&data).unwrap();
        if id == CompressionId::Huffman {
            assert_eq!(HuffmanCompressor.decompress(&out).unwrap(), data);
        } else {
            assert_eq!(id, CompressionId::NoCompression);
            assert_eq!(out, data);
        }
    }
    let packed = HuffmanCompressor.compress_always(b"abracadabra").unwrap();
    assert_eq!(HuffmanCompressor.decompress(&packed).unwrap(), b"abracadabra".to_vec());
    let empty = HuffmanCompressor.compress_always(b"").unwrap();
    assert_eq!(HuffmanCompressor.decompress(&empty).unwrap(), Vec::<u8>::new());
}

#[test]
fn huffman_shrinks_text() {
    let data = text_sample();
    let (out, id) = HuffmanCompressor.compress(&data).unwrap();
    assert_eq!(id, CompressionId::Huffman);
    assert!(out.len() < data.len());
}

#[test]
fn huffman_rejects_damaged_streams() {
    assert!(HuffmanCompressor.decompress(&[1, 2, 3]).is_err());
    let mut packed = HuffmanCompressor.compress_always(b"hello huffman").unwrap();
    packed.truncate(packed.len() / 2);
    assert!(HuffmanCompressor.decompress(&packed).is_err());
}

#[test]
fn lzss_round_trip() {
    for data in [Vec::new(), b"x".to_vec(), text_sample(), noise(5000), vec![9u8; 70000]] {
        let (out, id) = LzssCompressor.compress(&data, &mut MemoryBudget::new()).unwrap();
        if id == CompressionId::LZSS {
            assert_eq!(LzssCompressor.decompress(&out).unwrap(), data);
        } else {
            assert_eq!(id, CompressionId::NoCompression);
            assert_eq!(out, data);
        }
    }
}

#[test]
fn lzss_shrinks_repetitive_data_and_stores_noise() {
    let data = text_sample();
    let (out, id) = LzssCompressor.compress(&data, &mut MemoryBudget::new()).unwrap();
    assert_eq!(id, CompressionId::LZSS);
    assert_eq!(out[0], 0);
    assert!(out.len() < data.len() / 2);

    let random = noise(4000);
    let (kept, id) = LzssCompressor.compress(&random, &mut MemoryBudget::new()).unwrap();
    assert_eq!(id, CompressionId::NoCompression);
    assert_eq!(kept, random);
    // The decompressor still reads the stored mode.
    let mut stored = vec![1u8];
    stored.extend_from_slice(&(random.len() as u64).to_le_bytes());
    stored.extend_from_slice(&random);
    assert_eq!(LzssCompressor.decompress(&stored).unwrap(), random);
}

#[test]
fn lzss_codes_a_run_as_one_literal_and_one_reference() {
    let data = vec![0u8; 100];
    let (out, id) = LzssCompressor.compress(&data, &mut MemoryBudget::new()).unwrap();
    assert_eq!(id, CompressionId::LZSS);
    let mut expected = vec![0u8];
    expected.extend_from_slice(&100u64.to_le_bytes());
    expected.extend_from_slice(&[0b10, 0, 1, 0, 96]);
    assert_eq!(out, expected);
    assert_eq!(LzssCompressor.decompress(&out).unwrap(), data);
}

#[test]
fn lz77_codes_a_run_as_one_reference() {
    let data = vec![7u8; 100];
    let out = Lz77Compressor.compress(&data, &mut MemoryBudget::new()).unwrap();
    let mut expected = 100u64.to_le_bytes().to_vec();
    expected.extend_from_slice(&[0, 7, 2, 1, 0, 99]);
    assert_eq!(out, expected);
    assert_eq!(Lz77Compressor.decompress(&out).unwrap(), data);
}

#[test]
fn lzss_rejects_damaged_streams() {
    assert!(matches!(LzssCompressor.decompress(&[0, 1, 2]), Err(AppError::CorruptArchive(_))));
    let mut unknown_mode = vec![7u8];
    unknown_mode.extend_from_slice(&0u64.to_le_bytes());
    assert!(matches!(LzssCompressor.decompress(&unknown_mode), Err(AppError::CorruptArchive(_))));
    let mut bad_reference = vec![0u8];
    bad_reference.extend_from_slice(&4u64.to_le_bytes());
    bad_reference.extend_from_slice(&[0b0000_0001, 5, 0, 0]);
    assert!(matches!(LzssCompressor.decompress(&bad_reference), Err(AppError::CorruptArchive(_))));
}

#[test]
fn lz77_round_trip() {
    for data in [Vec::new(), b"a".to_vec(), b"abcabcabcabcabc".to_vec(), text_sample(), noise(3000), vec![1u8; 1000]] {
        let out = Lz77Compressor.compress(&data, &mut MemoryBudget::new()).unwrap();
        assert_eq!(&out[..8], &(data.len() as u64).to_le_bytes());
        assert_eq!(Lz77Compressor.decompress(&out).unwrap(), data);
    }
}

#[test]
fn lz77_token_layout() {
    let out = Lz77Compressor.compress(b"abcabcabcX", &mut MemoryBudget::new()).unwrap();
    let mut expected = 10u64.to_le_bytes().to_vec();
    expected.extend_from_slice(&[0, b'a', 0, b'b', 0, b'c']);
    // a copy of 6 bytes from 3 back, then the literal X.
    expected.extend_from_slice(&[1, 3, 0, 6, b'X']);
    assert_eq!(out, expected);
    let at_end = Lz77Compressor.compress(b"abab", &mut MemoryBudget::new()).unwrap();
    let mut expected = 4u64.to_le_bytes().to_vec();
    expected.extend_from_slice(&[0, b'a', 0, b'b', 0, b'a', 0, b'b']);
    assert_eq!(at_end, expected);
}

#[test]
fn lz77_rejects_damaged_streams() {
    assert!(matches!(Lz77Compressor.decompress(&[1, 2]), Err(AppError::CorruptArchive(_))));
    let mut unknown_tag = 1u64.to_le_bytes().to_vec();
    unknown_tag.extend_from_slice(&[9, 0]);
    assert!(matches!(Lz77Compressor.decompress(&unknown_tag), Err(AppError::CorruptArchive(_))));
    let mut bad_offset = 3u64.to_le_bytes().to_vec();
    bad_offset.extend_from_slice(&[0, b'a', 2, 2, 0, 2]);
    assert!(matches!(Lz77Compressor.decompress(&bad_offset), Err(AppError::CorruptArchive(_))));
    let mut truncated = 5u64.to_le_bytes().to_vec();
    truncated.extend_from_slice(&[0, b'a', 1, 1, 0]);
    assert!(matches!(Lz77Compressor.decompress(&truncated), Err(AppError::CorruptArchive(_))));
    let mut overlapping = 5u64.to_le_bytes().to_vec();
    overlapping.extend_from_slice(&[0, b'z', 2, 1, 0, 4]);
    assert_eq!(Lz77Compressor.decompress(&overlapping).unwrap(), b"zzzzz".to_vec());
}

#[test]
fn deflate_round_trip() {
    for data in [Vec::new(), text_sample(), noise(2000), vec![3u8; 10000]] {
        let (out, id) = DeflateCompressor.compress(&data, &mut MemoryBudget::new()).unwrap();
        assert_eq!(decompress_with(id, &out).unwrap(), data);
        assert_eq!(DeflateCompressor.id(), CompressionId::Deflate);
    }
    // The Deflate stream is the Huffman coding of the LZSS stream.
    let data = text_sample();
    let (lz, id) = LzssCompressor.compress(&data, &mut MemoryBudget::new()).unwrap();
    assert_eq!(id, CompressionId::LZSS);
    let both = HuffmanCompressor.compress_always(&lz).unwrap();
    assert_eq!(DeflateCompressor.decompress(&both).unwrap(), data);
    let (out, id) = DeflateCompressor.compress(&data, &mut MemoryBudget::new()).unwrap();
    assert!(id == CompressionId::Deflate || id == CompressionId::LZSS);
    assert_eq!(decompress_with(id, &out).unwrap(), data);
    assert!(DeflateCompressor.decompress(&[1, 2, 3]).is_err());
}

#[test]
fn compress_with_each_algorithm() {
    let data = text_sample();
    for id in [
        CompressionId::NoCompression,
        CompressionId::RLE,
        CompressionId::Huffman,
        CompressionId::LZSS,
        CompressionId::Deflate,
    ] {
        let (out, effective) = compress_with(id, &data, &mut MemoryBudget::new()).unwrap();
        if id == CompressionId::Deflate {
            assert!(effective == CompressionId::Deflate || effective == CompressionId::LZSS);
        } else {
            assert_eq!(effective, id);
        }
        assert_eq!(decompress_with(effective, &out).unwrap(), data);
    }
    let (out, id) = NoneCompressor.compress(b"as is").unwrap();
    assert_eq!((out, id), (b"as is".to_vec(), CompressionId::NoCompression));
}

#[test]
fn lz77_copies_runs_instead_of_literals() {
    let data = vec![7u8; 1000];
    let out = Lz77Compressor.compress(&data, &mut MemoryBudget::new()).unwrap();
    // One literal, then copies from one byte back.
    assert_eq!(&out[8..10], &[0, 7]);
    assert_ne!(out[10], 0);
    assert!(out.len() < 60);
    assert_eq!(Lz77Compressor.decompress(&out).unwrap(), data);
}

#[test]
fn compressors_take_their_memory_from_the_budget() {
    let mut small = MemoryBudget { available: 1000 };
    assert!(matches!(SlidingWindow::new(32768, 258, &mut small), Err(AppError::Compression(_))));
    assert!(matches!(HashChain::new(32768, &mut small), Err(AppError::Compression(_))));
    assert_eq!(small.available, 1000);
    assert!(matches!(LzssCompressor.compress(b"abcabcabc", &mut small), Err(AppError::Compression(_))));
    assert!(matches!(Lz77Compressor.compress(b"abcabcabc", &mut small), Err(AppError::Compression(_))));
    assert!(matches!(DeflateCompressor.compress(b"abcabcabc", &mut small), Err(AppError::Compression(_))));
    assert_eq!(small.available, 1000);

    let mut budget = MemoryBudget::new();
    let before = budget.available;
    let window = SlidingWindow::new(32768, 258, &mut budget).unwrap();
    assert_eq!(budget.available, before - (32768 + 262144 + 258));
    let chain = HashChain::new(32768, &mut budget).unwrap();
    assert_eq!(budget.available, before - (32768 + 262144 + 258) - (65536 + 32768) * 8);
    chain.release(&mut budget);
    window.release(&mut budget);
    assert_eq!(budget.available, before);
    LzssCompressor.compress(b"abcabcabcabc", &mut budget).unwrap();
    assert_eq!(budget.available, before);
}
