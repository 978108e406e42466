use vstd::prelude::*;

use crate::suffix_array::{lemma_sa_unique, sa_correct, sentinel_form, to_nums, SuffixArray};
use vstd::arithmetic::div_mod::{lemma_mod_add_multiples_vanish, lemma_mod_self_0, lemma_small_mod};

verus! {

/// The transform of `s` under suffix array `sa`: entry `i` is the byte that
/// cyclically precedes the suffix starting at `sa[i]`.
pub open spec fn bwt_of(s: Seq<u8>, sa: Seq<usize>) -> Seq<u8> {
    Seq::new(sa.len(), |i: int| s[(sa[i] + s.len() - 1) % (s.len() as int)])
}

/// The one correct suffix array of `s`.
pub open spec fn the_sa(s: Seq<u8>) -> Seq<usize> {
    choose|sa: Seq<usize>| sa_correct(to_nums(s), sa)
}

/// A Burrows-Wheeler transformed byte sequence.
pub struct Bwt {
    pub bwt: Vec<u8>,
}

impl Bwt {
    /// Builds the suffix array of `s` and reads the transform off it.
    pub fn encode(s: &Vec<u8>) -> (r: Bwt)
        requires
            sentinel_form(s@),
            s@.len() <= usize::MAX - 64,
        ensures
            sa_correct(to_nums(s@), the_sa(s@)),
            r.bwt@ == bwt_of(s@, the_sa(s@)),
            r.bwt@.to_multiset() == s@.to_multiset(),
    {
        let sab = SuffixArray::new(s);
        let n = s.len();
        let mut bwt: Vec<u8> = Vec::new();
        let mut i: usize = 0;
        while i < n
            invariant
                i <= n,
                n == s@.len(),
                sa_correct(to_nums(s@), sab.sa@),
                sab.s@ == s@,
                to_nums(s@).len() == s@.len(),
                bwt@.len() == i,
                forall|t: int| 0 <= t < i ==> bwt@[t] == bwt_of(s@, sab.sa@)[t],
            decreases n - i,
    {
            let x = sab.sa[i];
            let idx = if x == 0 {
                n - 1
            } else {
                x - 1
            };
            proof {
                if x == 0 {
                    lemma_small_mod((n - 1) as nat, n as nat);
                } else {
                    lemma_mod_add_multiples_vanish(x - 1, n as int);
                    lemma_small_mod((x - 1) as nat, n as nat);
                }
                assert(idx as int == (sab.sa@[i as int] + s@.len() - 1) % (s@.len() as int));
            }
            bwt.push(sab.s[idx]);
            i = i + 1;
        }
        proof {
            assert(sa_correct(to_nums(s@), the_sa(s@))) by {
                assert(sa_correct(to_nums(s@), sab.sa@));
            }
            lemma_sa_unique(to_nums(s@), sab.sa@, the_sa(s@));
            assert(bwt@ =~= bwt_of(s@, the_sa(s@)));
            lemma_bwt_permutation(s@, sab.sa@);
        }
        Bwt { bwt }
    }
}

/// A sequence that reads another through a bijective index map carries the
/// same multiset of values.
proof fn lemma_reindex_multiset(t: Seq<u8>, s: Seq<u8>, p: Seq<usize>)
    requires
        t.len() == p.len(),
        p.len() == s.len(),
        s.len() <= usize::MAX,
        forall|i: int| 0 <= i < p.len() ==> (p[i] as int) < s.len(),
        forall|i: int, j: int| 0 <= i < j < p.len() ==> p[i] != p[j],
        forall|j: int| 0 <= j < t.len() ==> t[j] == s[p[j] as int],
    ensures
        t.to_multiset() == s.to_multiset(),
    decreases t.len(),
{
    broadcast use vstd::seq_lib::group_to_multiset_ensures;

    if t.len() == 0 {
        assert(t.to_multiset() =~= s.to_multiset());
    } else {
        let n = s.len() as int;
        crate::suffix_array::lemma_distinct_bounded(p, n);
        assert(p.contains((n - 1) as usize));
        let j = choose|j: int| 0 <= j < p.len() && p[j] == (n - 1) as usize;
        let v = t[j];
        assert(v == s[n - 1]);
        let t2 = t.remove(j);
        let s2 = s.drop_last();
        let p2 = p.remove(j);
        assert(t2.to_multiset() =~= t.to_multiset().remove(v));
        assert(s.remove(n - 1) =~= s2);
        assert(s2.to_multiset() =~= s.to_multiset().remove(v));
        assert forall|i: int| 0 <= i < p2.len() implies (p2[i] as int) < s2.len() by {
            if i < j {
                assert(p2[i] == p[i]);
                assert(p[i] != p[j]);
            } else {
                assert(p2[i] == p[i + 1]);
                assert(p[j] != p[i + 1]);
            }
        }
        assert forall|i: int, k: int| 0 <= i < k < p2.len() implies p2[i] != p2[k] by {
            assert(p2[i] == (if i < j {
                p[i]
            } else {
                p[i + 1]
            }));
            assert(p2[k] == (if k < j {
                p[k]
            } else {
                p[k + 1]
            }));
        }
        assert forall|i: int| 0 <= i < t2.len() implies t2[i] == s2[p2[i] as int] by {
            if i < j {
                assert(t2[i] == t[i] && p2[i] == p[i]);
            } else {
                assert(t2[i] == t[i + 1] && p2[i] == p[i + 1]);
            }
        }
        lemma_reindex_multiset(t2, s2, p2);
        assert(t.contains(v));
        assert(s.contains(v));
        assert(t.to_multiset().count(v) > 0);
        assert(s.to_multiset().count(v) > 0);
        assert forall|x: u8| t.to_multiset().count(x) == s.to_multiset().count(x) by {
            assert(t.to_multiset().remove(v).count(x) == s.to_multiset().remove(v).count(x));
        }
        assert(t.to_multiset() =~= s.to_multiset());
    }
}

/// The transform holds exactly the input's bytes, rearranged: each entry
/// reads the input through the bijection that steps every suffix start
/// back by one position, cyclically.
pub proof fn lemma_bwt_permutation(s: Seq<u8>, sa: Seq<usize>)
    requires
        sa_correct(to_nums(s), sa),
        1 <= s.len() <= usize::MAX,
    ensures
        bwt_of(s, sa).to_multiset() == s.to_multiset(),
{
    let n = s.len() as int;
    let t = bwt_of(s, sa);
    assert(to_nums(s).len() == s.len());
    let p = Seq::new(
        sa.len(),
        |j: int|
            if sa[j] == 0 {
                (n - 1) as usize
            } else {
                (sa[j] - 1) as usize
            },
    );
    assert forall|j: int| 0 <= j < t.len() implies t[j] == s[p[j] as int] by {
        if sa[j] == 0 {
            lemma_small_mod((n - 1) as nat, n as nat);
        } else {
            lemma_mod_add_multiples_vanish(sa[j] - 1, n);
            lemma_small_mod((sa[j] - 1) as nat, n as nat);
        }
    }
    assert forall|i: int, j: int| 0 <= i < j < p.len() implies p[i] != p[j] by {
        assert(sa[i] != sa[j]);
    }
    lemma_reindex_multiset(t, s, p);
}

/// The position at which `sa` lists the suffix start `v`.
pub open spec fn rank_of(sa: Seq<usize>, v: int) -> int {
    choose|k: int| 0 <= k < sa.len() && (sa[k] as int) == v
}

/// Rebuilds a string from its transform and suffix array: the byte at `j`
/// precedes the suffix starting at `j + 1` (cyclically), so it is the
/// transform entry at the rank of `j + 1`.
pub open spec fn bwt_restore(bwt: Seq<u8>, sa: Seq<usize>) -> Seq<u8> {
    Seq::new(bwt.len(), |j: int| bwt[rank_of(sa, (j + 1) % (bwt.len() as int))])
}

/// Round trip: the transform together with the suffix array determines the
/// original string exactly.
pub proof fn lemma_bwt_restore(s: Seq<u8>, sa: Seq<usize>)
    requires
        sa_correct(to_nums(s), sa),
        1 <= s.len() <= usize::MAX,
    ensures
        bwt_restore(bwt_of(s, sa), sa) == s,
{
    let n = s.len() as int;
    let b = bwt_of(s, sa);
    assert(to_nums(s).len() == s.len());
    assert forall|j: int| 0 <= j < n implies bwt_restore(b, sa)[j] == s[j] by {
        let v = (j + 1) % n;
        if j + 1 < n {
            lemma_small_mod((j + 1) as nat, n as nat);
        } else {
            lemma_mod_self_0(n);
        }
        assert(0 <= v < n);
        assert(sa.contains(v as usize));
        assert(exists|k: int| 0 <= k < sa.len() && (sa[k] as int) == v) by {
            let t = choose|t: int| 0 <= t < sa.len() && sa[t] == v as usize;
            assert((sa[t] as int) == v);
        }
        let k = rank_of(sa, v);
        assert(0 <= k < sa.len() && (sa[k] as int) == v);
        if v == 0 {
            assert(j == n - 1);
            lemma_small_mod((n - 1) as nat, n as nat);
        } else {
            lemma_mod_add_multiples_vanish(v - 1, n);
            lemma_small_mod((v - 1) as nat, n as nat);
        }
        assert(b[k] == s[j]);
    }
    assert(bwt_restore(b, sa) =~= s);
}

} // verus!
