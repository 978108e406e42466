use bwtzip::mtf::mtf_encode;
use bwtzip::mtf::MtfPolicy;
use bwtzip::rle::zero_run_length;

/// Inverse of the standard promotion rule, used only to exercise the
/// round-trip law.
fn mtf_decode_standard(codes: &[u8]) -> Vec<u8> {
    let mut table: Vec<u8> = (0..=255).collect();
    let mut out = Vec::new();
    for &c in codes.iter() {
        let pos = c as usize;
        let x = table[pos];
        out.push(x);
        for j in (1..=pos).rev() {
            table.swap(j - 1, j);
        }
    }
    out
}

/// Expands every `(0, k)` pair into `k + 1` zero codes.
fn rle_expand(codes: &[u16]) -> Vec<u8> {
    let mut out = Vec::new();
    let mut i = 0;
    while i < codes.len() {
        if codes[i] == 0 {
            let k = codes[i + 1] as usize;
            for _ in 0..k + 1 {
                out.push(0u8);
            }
            i += 2;
        } else {
            out.push(codes[i] as u8);
            i += 1;
        }
    }
    out
}

#[test]
fn mtf_standard_small_scenario() {
    // table starts as identity; 3 is emitted at its position, then sits at
    // the front; 1 has shifted one place right by then
    let input = vec![3u8, 3, 3, 1];
    let out = mtf_encode(&input, MtfPolicy::Standard);
    assert_eq!(out, vec![3u8, 0, 0, 2]);
}

#[test]
fn mtf_lag_one_small_scenario() {
    // index 0 stays put, so the second 3 is emitted at position 1 and only
    // then swapped to the front
    let input = vec![3u8, 3, 3, 1];
    let out = mtf_encode(&input, MtfPolicy::LagOne);
    assert_eq!(out, vec![3u8, 1, 0, 2]);
}

#[test]
fn mtf_output_length_matches_input() {
    let input: Vec<u8> = (0u8..=255).chain(200u8..=255).collect();
    assert_eq!(mtf_encode(&input, MtfPolicy::Standard).len(), input.len());
    assert_eq!(mtf_encode(&input, MtfPolicy::LagOne).len(), input.len());
}

#[test]
fn mtf_standard_round_trips() {
    let cases: Vec<Vec<u8>> = vec![
        vec![],
        vec![7],
        vec![3, 3, 3, 1],
        (0u8..=255).collect(),
        b"the quick brown fox jumps over the lazy dog".to_vec(),
        (0..10_000u32).map(|i| (i * 7 % 251) as u8 + 1).collect(),
    ];
    for input in cases {
        let codes = mtf_encode(&input, MtfPolicy::Standard);
        assert_eq!(mtf_decode_standard(&codes), input);
    }
}

#[test]
fn rle_small_scenario() {
    assert_eq!(zero_run_length(&vec![0u8, 0, 0, 5]), vec![0u16, 2, 5]);
}

#[test]
fn rle_all_zero_input() {
    assert_eq!(zero_run_length(&vec![0u8; 9]), vec![0u16, 8]);
}

#[test]
fn rle_zero_free_input_passes_through() {
    let input = vec![4u8, 9, 1, 255, 3];
    assert_eq!(zero_run_length(&input), vec![4u16, 9, 1, 255, 3]);
}

#[test]
fn rle_mixed_input() {
    let input = vec![0u8, 0, 7, 0, 1, 1, 0, 0, 0, 2, 0];
    assert_eq!(
        zero_run_length(&input),
        vec![0u16, 1, 7, 0, 0, 1, 1, 0, 2, 2, 0, 0]
    );
}

#[test]
fn rle_empty_input() {
    assert_eq!(zero_run_length(&Vec::new()), Vec::<u16>::new());
}

#[test]
fn rle_round_trips() {
    let cases: Vec<Vec<u8>> = vec![
        vec![],
        vec![0; 300],
        vec![5, 6, 7],
        vec![0, 0, 7, 0, 1, 1, 0, 0, 0, 2, 0],
        (0..5_000u32).map(|i| if i % 5 < 3 { 0u8 } else { (i % 97) as u8 + 1 }).collect(),
    ];
    for input in cases {
        let codes = zero_run_length(&input);
        // no two consecutive zero codes; every zero is followed by a length
        let mut i = 0;
        while i < codes.len() {
            if codes[i] == 0 {
                assert!(i + 1 < codes.len());
                i += 2;
            } else {
                i += 1;
            }
        }
        assert_eq!(rle_expand(&codes), input);
    }
}
