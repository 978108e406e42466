use bwtzip::bwt::Bwt;
use bwtzip::huffman::huffman_encode_with_tree;
use bwtzip::huffman::HuffmanTree;
use bwtzip::mtf::mtf_encode;
use bwtzip::mtf::MtfPolicy;
use bwtzip::rle::zero_run_length;

fn run_pipeline(payload: &[u8], policy: MtfPolicy) -> Vec<bool> {
    let mut s = payload.to_vec();
    for &x in s.iter() {
        assert_ne!(x, 0u8);
    }
    s.push(0u8);
    let bwted = Bwt::encode(&s);
    assert_eq!(bwted.bwt.len(), s.len());
    let mtf = mtf_encode(&bwted.bwt, policy);
    assert_eq!(mtf.len(), s.len());
    let rle = zero_run_length(&mtf);
    let tree = HuffmanTree::new(&rle);
    huffman_encode_with_tree(&rle, &tree)
}

#[test]
fn pipeline_runs_on_small_text() {
    let bits = run_pipeline(b"banana", MtfPolicy::Standard);
    assert!(!bits.is_empty());
}

#[test]
fn pipeline_runs_with_lag_one_policy() {
    let bits = run_pipeline(b"banana", MtfPolicy::LagOne);
    assert!(!bits.is_empty());
}

#[test]
fn pipeline_compresses_repetitive_text() {
    let payload: Vec<u8> = b"abcabcabcabc".iter().cycle().take(600).cloned().collect();
    let bits = run_pipeline(&payload, MtfPolicy::Standard);
    // the caller reports bits / 8 as the compressed size
    assert!(bits.len() / 8 < payload.len());
}

#[test]
fn pipeline_single_distinct_symbol() {
    let bits = run_pipeline(b"rrrrrrrr", MtfPolicy::Standard);
    assert!(!bits.is_empty());
}
