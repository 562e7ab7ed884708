use rustarch::hamming::BlockStatus;
use rustarch::huffman_code::{build_decode_table, create_huffman_codes, depth_at_most, DecodeEntry};
use rustarch::huffman_tree::{build_tree, SymbolWithFreq};
use rustarch::lz_history::DecodeHistory;
use rustarch::rs_code::{berlekamp_massey, decode_block, find_errors};
use rustarch::rs_field::Gf256;
use rustarch::rs_poly::{
    build_genzerator, poly_eval_ascending, poly_eval_descending, poly_formal_derivative, poly_mul, poly_mul_descending,
    rs_encode_block,
};

#[test]
fn field_arithmetic() {
    let gf = Gf256::new();
    assert_eq!(gf.mul(3, 7), 9);
    assert_eq!(gf.mul(2, 0x80), 0x1d);
    assert_eq!(gf.mul(0, 200), 0);
    assert_eq!(gf.div(9, 3), 7);
    assert_eq!(gf.div(0, 5), 0);
    assert_eq!(gf.pow(2, 8), 0x1d);
    assert_eq!(gf.pow(2, 255), 1);
    assert_eq!(gf.pow(0, 0), 1);
    assert_eq!(gf.pow(0, 3), 0);
    assert_eq!(gf.mul(gf.pow(2, -1), 2), 1);
    for a in 1..=255u8 {
        assert_eq!(gf.mul(a, gf.div(1, a)), 1, "inverse of {a}");
    }
}

#[test]
fn field_laws_hold_on_samples() {
    let gf = Gf256::new();
    let samples = [0u8, 1, 2, 3, 7, 29, 0x53, 0x80, 0xca, 0xff];
    for &a in &samples {
        assert_eq!(gf.mul(a, 1), a);
        for &b in &samples {
            assert_eq!(gf.mul(a, b), gf.mul(b, a));
            for &c in &samples {
                assert_eq!(gf.mul(a, b ^ c), gf.mul(a, b) ^ gf.mul(a, c));
                assert_eq!(gf.mul(gf.mul(a, b), c), gf.mul(a, gf.mul(b, c)));
            }
        }
    }
    // Every non-zero element is a power of 2.
    let mut seen = [false; 256];
    for i in 0..255 {
        seen[gf.pow(2, i) as usize] = true;
    }
    assert!(seen[1..].iter().all(|&s| s));
}

#[test]
fn polynomials() {
    let gf = Gf256::new();
    // (1 + x)(1 + x) = 1 + x^2 in characteristic 2.
    assert_eq!(poly_mul(&gf, &[1, 1], &[1, 1]), vec![1, 0, 1]);
    assert_eq!(poly_mul_descending(&gf, &[1, 2], &[1, 4]), vec![1, 6, 8]);
    assert_eq!(poly_eval_descending(&gf, &[1, 2], 2), 0);
    assert_eq!(poly_eval_ascending(&gf, &[5, 0, 1], 3), 5 ^ 5);
    assert_eq!(poly_formal_derivative(&[7, 3, 5, 9]), vec![3, 0, 9]);
    assert_eq!(build_genzerator(&gf, 1), vec![1, 1]);
    let genz = build_genzerator(&gf, 32);
    assert_eq!(genz.len(), 33);
    for i in 0..32 {
        assert_eq!(poly_eval_descending(&gf, &genz, gf.pow(2, i)), 0, "root {i}");
    }
}

#[test]
fn encoded_blocks_are_codewords() {
    let gf = Gf256::new();
    let genz = build_genzerator(&gf, 32);
    let data: Vec<u8> = (0..223u32).map(|i| (i * 37 % 251) as u8).collect();
    let codeword = rs_encode_block(&gf, &data, &genz);
    assert_eq!(codeword.len(), 255);
    assert_eq!(&codeword[..223], &data[..]);
    for i in 0..32 {
        assert_eq!(poly_eval_descending(&gf, &codeword, gf.pow(2, i)), 0, "syndrome {i}");
    }
    let syndromes = vec![0u8; 32];
    let (lambda, errors) = berlekamp_massey(&gf, &syndromes);
    assert_eq!((lambda, errors), (vec![1], 0));
    assert!(find_errors(&gf, &[1], 255).is_empty());
    let mut clean = codeword.clone();
    assert_eq!(decode_block(&gf, &mut clean, 32), BlockStatus::NoErrors);
    assert_eq!(clean, codeword);
    let mut damaged = codeword.clone();
    damaged[3] ^= 0x55;
    damaged[200] ^= 0x01;
    assert_eq!(decode_block(&gf, &mut damaged, 32), BlockStatus::Corrected);
    assert_eq!(damaged, codeword);
}

#[test]
fn distinct_codewords_differ_in_at_least_33_places() {
    let gf = Gf256::new();
    let genz = build_genzerator(&gf, 32);
    let a: Vec<u8> = (0..223u32).map(|i| (i * 7 + 1) as u8).collect();
    for pos in [0usize, 100, 222] {
        let mut b = a.clone();
        b[pos] ^= 0x5a;
        let ca = rs_encode_block(&gf, &a, &genz);
        let cb = rs_encode_block(&gf, &b, &genz);
        let distance = ca.iter().zip(cb.iter()).filter(|(x, y)| x != y).count();
        assert!(distance >= 33, "distance {distance} at {pos}");
    }
}

#[test]
fn berlekamp_massey_generates_the_syndromes() {
    let gf = Gf256::new();
    let genz = build_genzerator(&gf, 32);
    let data: Vec<u8> = (0..100u32).map(|i| (i * 13 + 7) as u8).collect();
    let mut word = rs_encode_block(&gf, &data, &genz);
    word[10] ^= 0x21;
    word[77] ^= 0x90;
    word[120] ^= 0x03;
    let syndromes: Vec<u8> = (0..32).map(|i| poly_eval_descending(&gf, &word, gf.pow(2, i))).collect();
    let (lambda, l) = berlekamp_massey(&gf, &syndromes);
    assert_eq!(l, 3);
    assert_eq!(lambda.len(), 4);
    assert_eq!(lambda[0], 1);
    for j in l..32 {
        let mut acc = 0u8;
        for i in 0..=l {
            acc ^= gf.mul(lambda[i], syndromes[j - i]);
        }
        assert_eq!(acc, 0, "position {j}");
    }
    assert_eq!(find_errors(&gf, &lambda, word.len()).len(), 3);
}

#[test]
fn huffman_codes_follow_frequencies() {
    let freqs = [
        SymbolWithFreq { symbol: b'a', freq: 5 },
        SymbolWithFreq { symbol: b'b', freq: 2 },
        SymbolWithFreq { symbol: b'c', freq: 1 },
        SymbolWithFreq { symbol: b'd', freq: 1 },
    ];
    let tree = build_tree(&freqs);
    assert_eq!(tree.freq(), 9);
    assert!(depth_at_most(&tree, 32));
    assert!(!depth_at_most(&tree, 2));
    let codes = create_huffman_codes(&tree);
    assert_eq!(codes[b'a' as usize].len, 1);
    assert_eq!(codes[b'b' as usize].len, 2);
    assert_eq!(codes[b'c' as usize].len, 3);
    assert_eq!(codes[b'd' as usize].len, 3);
    assert_eq!(codes[b'z' as usize].len, 0);
}

#[test]
fn huffman_codes_are_prefix_free() {
    let freqs = [
        SymbolWithFreq { symbol: b'a', freq: 40 },
        SymbolWithFreq { symbol: b'b', freq: 20 },
        SymbolWithFreq { symbol: b'c', freq: 10 },
        SymbolWithFreq { symbol: b'd', freq: 5 },
        SymbolWithFreq { symbol: b'e', freq: 3 },
        SymbolWithFreq { symbol: b'f', freq: 1 },
    ];
    let tree = build_tree(&freqs);
    let codes = create_huffman_codes(&tree);
    let symbols = [b'a', b'b', b'c', b'd', b'e', b'f'];
    for &s in &symbols {
        for &t in &symbols {
            let (p, q) = (codes[s as usize], codes[t as usize]);
            if s != t && p.len <= q.len {
                assert_ne!(q.code >> (q.len - p.len) as u32, p.code);
            }
        }
    }
}

#[test]
fn decode_table_covers_every_short_code() {
    let freqs = [
        SymbolWithFreq { symbol: b'a', freq: 5 },
        SymbolWithFreq { symbol: b'b', freq: 2 },
        SymbolWithFreq { symbol: b'c', freq: 1 },
        SymbolWithFreq { symbol: b'd', freq: 1 },
    ];
    let tree = build_tree(&freqs);
    let codes = create_huffman_codes(&tree);
    let table = build_decode_table(&tree);
    assert_eq!(table.len(), 4096);
    for idx in 0..4096u32 {
        let hit = [b'a', b'b', b'c', b'd'].iter().find(|&&s| {
            let c = codes[s as usize];
            idx >> (12 - c.len as u32) == c.code
        });
        match (table[idx as usize], hit) {
            (DecodeEntry::Symbol { symbol, code_len }, Some(&s)) => {
                assert_eq!(symbol, s);
                assert_eq!(code_len, codes[s as usize].len);
            }
            (entry, hit) => panic!("index {idx}: {entry:?} against {hit:?}"),
        }
    }
}

#[test]
fn decode_history_keeps_the_last_bytes() {
    let mut history = DecodeHistory::new(4);
    history.extend(b"abcdef");
    assert_eq!(history.len(), 4);
    let mut out = Vec::new();
    history.copy_match(2, 5, &mut out).unwrap();
    assert_eq!(out, b"efefe".to_vec());
    history.push(b'z');
    assert!(history.copy_match(5, 1, &mut out).is_err());
    assert!(history.copy_match(0, 1, &mut out).is_err());
}
