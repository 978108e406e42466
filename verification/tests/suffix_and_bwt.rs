use bwtzip::bitvec::Bitvec;
use bwtzip::bwt::Bwt;
use bwtzip::suffix_array::sa_check;
use bwtzip::suffix_array::SuffixArray;

fn with_sentinel(payload: &[u8]) -> Vec<u8> {
    let mut s = payload.to_vec();
    for &x in s.iter() {
        assert_ne!(x, 0u8);
    }
    s.push(0u8);
    s
}

fn widened(s: &[u8]) -> Vec<usize> {
    s.iter().map(|&b| b as usize).collect()
}

/// Inverse BWT through the standard LF-mapping, used only to exercise the
/// round-trip law.
fn lf_reconstruct(bwt: &[u8]) -> Vec<u8> {
    let n = bwt.len();
    // c_before[c]: number of bytes in bwt strictly smaller than c
    let mut counts = [0usize; 256];
    for &b in bwt.iter() {
        counts[b as usize] += 1;
    }
    let mut c_before = [0usize; 256];
    let mut acc = 0usize;
    for c in 0..256 {
        c_before[c] = acc;
        acc += counts[c];
    }
    // rank[i]: occurrences of bwt[i] in bwt[0..=i], minus one
    let mut seen = [0usize; 256];
    let mut rank = vec![0usize; n];
    for i in 0..n {
        rank[i] = seen[bwt[i] as usize];
        seen[bwt[i] as usize] += 1;
    }
    let lf = |i: usize| c_before[bwt[i] as usize] + rank[i];
    // row 0 is the sentinel suffix; walk backwards through the string
    let mut res = vec![0u8; n];
    let mut r = 0usize;
    for k in (0..n - 1).rev() {
        res[k] = bwt[r];
        r = lf(r);
    }
    res[n - 1] = 0u8;
    res
}

#[test]
fn sa_is_alone_produces_the_sorted_order() {
    for payload in [
        &b"banana"[..],
        b"mississippi",
        b"abracadabra",
        b"aaaaaaaaaa",
        b"abaabaaabaaaab",
        b"the quick brown fox jumps over the lazy dog",
    ] {
        let s = with_sentinel(payload);
        let su = widened(&s);
        let cand = SuffixArray::sa_is(&su, 256);
        assert!(sa_check(&su, &cand));
    }
    let s = with_sentinel(b"banana");
    let su = widened(&s);
    assert_eq!(SuffixArray::sa_is(&su, 256), vec![6, 5, 3, 1, 0, 4, 2]);
}

fn classify(su: &Vec<usize>) -> Bitvec {
    let n = su.len();
    let mut t = Bitvec::new(n);
    for i in (0..n).rev() {
        if i == n - 1 || su[i] < su[i + 1] {
            t.set(i, true);
        } else if su[i] == su[i + 1] {
            let b = t.at(i + 1);
            t.set(i, b);
        }
    }
    t
}

#[test]
fn induced_sort_completes_a_sorted_lms_seed() {
    // "banana" + sentinel: left-most S-type positions are 1, 3 and 6;
    // by suffix order the seed is [6, 3, 1]
    let su = widened(&with_sentinel(b"banana"));
    let is_s = classify(&su);
    let sa = SuffixArray::induced_sort(&su, &is_s, 256, &vec![6, 3, 1]);
    assert_eq!(sa, vec![6, 5, 3, 1, 0, 4, 2]);
}

#[test]
fn induced_sort_yields_a_permutation_from_any_seed() {
    let su = widened(&with_sentinel(b"banana"));
    let is_s = classify(&su);
    // the seed in text order, as the first pass uses it
    let sa = SuffixArray::induced_sort(&su, &is_s, 256, &vec![1, 3, 6]);
    let mut hit = vec![false; su.len()];
    for &x in sa.iter() {
        assert!(x < su.len());
        assert!(!hit[x]);
        hit[x] = true;
    }
}

#[test]
fn banana_suffix_array() {
    let s = with_sentinel(b"banana");
    let sa = SuffixArray::new(&s);
    assert_eq!(sa.sa, vec![6, 5, 3, 1, 0, 4, 2]);
    assert_eq!(sa.s, s);
}

#[test]
fn suffix_array_is_sorted_permutation() {
    for payload in [&b"banana"[..], b"mississippi", b"abracadabra", b"zzzzz", b"q"] {
        let s = with_sentinel(payload);
        let sa = SuffixArray::new(&s);
        let n = s.len();
        // permutation of 0..n
        let mut seen = vec![false; n];
        for &x in sa.sa.iter() {
            assert!(x < n);
            assert!(!seen[x]);
            seen[x] = true;
        }
        // suffixes in non-decreasing order
        for w in sa.sa.windows(2) {
            assert!(s[w[0]..] <= s[w[1]..]);
        }
        assert!(sa_check(&widened(&s), &sa.sa));
    }
}

#[test]
fn sentinel_suffix_comes_first() {
    for payload in [&b"banana"[..], b"aaaa", b"tobeornottobe"] {
        let s = with_sentinel(payload);
        let sa = SuffixArray::new(&s);
        assert_eq!(sa.sa[0], s.len() - 1);
    }
}

#[test]
fn sa_check_rejects_wrong_arrays() {
    let s = widened(&with_sentinel(b"banana"));
    assert!(!sa_check(&s, &vec![0, 1, 2, 3, 4, 5, 6]));
    assert!(!sa_check(&s, &vec![6, 5, 3, 1, 0, 4]));
    assert!(!sa_check(&s, &vec![6, 5, 3, 1, 0, 4, 4]));
    assert!(!sa_check(&s, &vec![6, 5, 3, 1, 0, 2, 4]));
}

#[test]
fn sa_is_serves_reduced_integer_alphabets() {
    // a rank sequence as the recursion produces it: terminated by its
    // unique minimum
    let ranks: Vec<usize> = vec![2, 1, 2, 1, 3, 0];
    let sa = SuffixArray::sa_is(&ranks, 4);
    assert!(sa_check(&ranks, &sa));
    assert_eq!(sa, vec![5, 1, 3, 0, 2, 4]);
}

#[test]
fn bwt_of_repeated_byte() {
    let s = with_sentinel(b"aaaa");
    let b = Bwt::encode(&s);
    // bwt[i] = s[(sa[i] + n - 1) % n] with sa = [4, 3, 2, 1, 0]
    assert_eq!(b.bwt, vec![b'a', b'a', b'a', b'a', 0u8]);
    assert_eq!(lf_reconstruct(&b.bwt), s);
}

#[test]
fn bwt_round_trips_through_lf_mapping() {
    for payload in [&b"banana"[..], b"mississippi", b"abracadabra", b"x", b"bzip like input"]
    {
        let s = with_sentinel(payload);
        let b = Bwt::encode(&s);
        assert_eq!(b.bwt.len(), s.len());
        assert_eq!(lf_reconstruct(&b.bwt), s);
    }
}
