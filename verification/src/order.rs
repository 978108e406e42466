use vstd::prelude::*;

verus! {

/// The suffix of `s` that starts at position `i`.
pub open spec fn suffix(s: Seq<usize>, i: int) -> Seq<usize> {
    s.subrange(i, s.len() as int)
}

/// Lexicographic order on symbol sequences; a proper prefix comes before
/// any of its extensions.
pub open spec fn lex_le(a: Seq<usize>, b: Seq<usize>) -> bool
    decreases a.len(),
{
    if a.len() == 0 {
        true
    } else if b.len() == 0 {
        false
    } else if a[0] < b[0] {
        true
    } else if a[0] > b[0] {
        false
    } else {
        lex_le(a.skip(1), b.skip(1))
    }
}

pub proof fn lemma_lex_refl(a: Seq<usize>)
    ensures
        lex_le(a, a),
    decreases a.len(),
{
    if a.len() > 0 {
        lemma_lex_refl(a.skip(1));
    }
}

/// Any two symbol sequences are comparable.
pub proof fn lemma_lex_total(a: Seq<usize>, b: Seq<usize>)
    ensures
        lex_le(a, b) || lex_le(b, a),
    decreases a.len(),
{
    if a.len() > 0 && b.len() > 0 && a[0] == b[0] {
        lemma_lex_total(a.skip(1), b.skip(1));
    }
}

pub proof fn lemma_lex_trans(a: Seq<usize>, b: Seq<usize>, c: Seq<usize>)
    requires
        lex_le(a, b),
        lex_le(b, c),
    ensures
        lex_le(a, c),
    decreases a.len(),
{
    if a.len() > 0 {
        if a[0] == b[0] && b[0] == c[0] {
            lemma_lex_trans(a.skip(1), b.skip(1), c.skip(1));
        }
    }
}

/// Order in both directions only holds between equal sequences.
pub proof fn lemma_lex_antisym(a: Seq<usize>, b: Seq<usize>)
    requires
        lex_le(a, b),
        lex_le(b, a),
    ensures
        a == b,
    decreases a.len(),
{
    if a.len() == 0 {
        assert(a =~= b);
    } else {
        lemma_lex_antisym(a.skip(1), b.skip(1));
        assert(a =~= b) by {
            assert(a.len() == 1 + a.skip(1).len());
            assert(forall|i: int| 1 <= i < a.len() ==> a[i] == a.skip(1)[i - 1] && b[i] == b.skip(
                1,
            )[i - 1]);
        }
    }
}

/// One step of suffix comparison strips the shared first symbol.
pub proof fn lemma_suffix_step(s: Seq<usize>, i: int)
    requires
        0 <= i < s.len(),
    ensures
        suffix(s, i).skip(1) == suffix(s, i + 1),
{
    assert(suffix(s, i).skip(1) =~= suffix(s, i + 1));
}

/// Compares the suffixes of `s` that start at `i` and at `j`.
pub fn suffix_le(s: &Vec<usize>, i: usize, j: usize) -> (r: bool)
    requires
        i <= s@.len(),
        j <= s@.len(),
    ensures
        r == lex_le(suffix(s@, i as int), suffix(s@, j as int)),
{
    let n = s.len();
    let mut d: usize = 0;
    while i + d < n && j + d < n
        invariant
            i + d <= n,
            j + d <= n,
            n == s@.len(),
            i <= s@.len(),
            j <= s@.len(),
            lex_le(suffix(s@, i as int), suffix(s@, j as int)) == lex_le(
                suffix(s@, i + d),
                suffix(s@, j + d),
            ),
        decreases n - d,
    {
        let a = s[i + d];
        let b = s[j + d];
        proof {
            assert(suffix(s@, i + d)[0] == a);
            assert(suffix(s@, j + d)[0] == b);
        }
        if a < b {
            return true;
        }
        if a > b {
            return false;
        }
        proof {
            lemma_suffix_step(s@, i + d);
            lemma_suffix_step(s@, j + d);
        }
        d = d + 1;
    }
    if i + d >= n {
        proof {
            assert(suffix(s@, i + d).len() == 0);
        }
        true
    } else {
        proof {
            assert(suffix(s@, j + d).len() == 0);
            assert(suffix(s@, i + d).len() > 0);
        }
        false
    }
}

} // verus!
