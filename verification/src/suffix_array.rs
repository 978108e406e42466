use vstd::prelude::*;

use crate::bitvec::Bitvec;
use crate::order::{
    lemma_lex_antisym, lemma_lex_refl, lemma_lex_total, lemma_lex_trans, lex_le, suffix, suffix_le,
};
use crate::util::fill;

verus! {

/// The input form the pipeline accepts: at least one payload byte followed
/// by exactly one sentinel `0x00`, which occurs nowhere else.
pub open spec fn sentinel_form(s: Seq<u8>) -> bool {
    &&& s.len() >= 2
    &&& s[s.len() - 1] == 0
    &&& forall|i: int| 0 <= i < s.len() - 1 ==> s[i] != 0
}

/// Bytes widened to the integer alphabet the suffix sort works over; the
/// cast preserves their order.
pub open spec fn to_nums(s: Seq<u8>) -> Seq<usize> {
    s.map_values(|x: u8| x as usize)
}

/// The terminator form the sort itself needs: at least two symbols, the
/// last strictly smaller than every other one. It holds of the byte level
/// (the sentinel) and of every reduced rank sequence.
pub open spec fn min_terminated(s: Seq<usize>) -> bool {
    &&& s.len() >= 2
    &&& forall|i: int| 0 <= i < s.len() - 1 ==> s[s.len() - 1] < #[trigger] s[i]
}

/// S-type: the suffix at `i` is lexicographically smaller than its right
/// neighbor suffix; the last position is S-type by convention.
pub open spec fn stype(s: Seq<usize>, i: int) -> bool
    decreases s.len() - i,
{
    if i >= s.len() - 1 {
        true
    } else if s[i] < s[i + 1] {
        true
    } else if s[i] > s[i + 1] {
        false
    } else {
        stype(s, i + 1)
    }
}

/// `t` is the right-to-left L/S classification of `s`.
pub open spec fn classified(s: Seq<usize>, t: Seq<bool>) -> bool {
    t.len() == s.len() && (forall|i: int| 0 <= i < s.len() ==> t[i] == stype(s, i))
}

/// Position `i` is left-most S-type under classification `t`.
pub open spec fn lms_at(t: Seq<bool>, i: int) -> bool {
    0 < i < t.len() && !t[i - 1] && t[i]
}

/// The seed lists every left-most S-type position exactly once, in
/// lexicographic order of their full suffixes.
pub open spec fn lms_seed_sorted(s: Seq<usize>, t: Seq<bool>, lms: Seq<usize>) -> bool {
    &&& forall|k: int| 0 <= k < lms.len() ==> lms_at(t, #[trigger] lms[k] as int)
    &&& forall|k1: int, k2: int| 0 <= k1 < k2 < lms.len() ==> lms[k1] != lms[k2]
    &&& forall|p: usize| lms_at(t, p as int) ==> #[trigger] lms.contains(p)
    &&& forall|k1: int, k2: int|
        0 <= k1 < k2 < lms.len() ==> lex_le(suffix(s, lms[k1] as int), suffix(s, lms[k2] as int))
}

/// `sa` lists every suffix start of `s` exactly once, ordered so that the
/// named suffixes are lexicographically non-decreasing.
pub open spec fn sa_correct(s: Seq<usize>, sa: Seq<usize>) -> bool {
    &&& sa.len() == s.len()
    &&& forall|i: int| 0 <= i < sa.len() ==> (sa[i] as int) < s.len()
    &&& forall|i: int, j: int| 0 <= i < j < sa.len() ==> sa[i] != sa[j]
    &&& forall|v: usize| (v as int) < s.len() ==> #[trigger] sa.contains(v)
    &&& forall|i: int, j: int|
        0 <= i < j < sa.len() ==> lex_le(suffix(s, sa[i] as int), suffix(s, sa[j] as int))
}

/// The values of `q` as mathematical integers.
pub open spec fn to_ints(q: Seq<usize>) -> Seq<int> {
    q.map_values(|x: usize| x as int)
}

/// Distinct values below `n` form a set of exactly `q.len()` integers
/// inside `[0, n)`.
proof fn lemma_distinct_card(q: Seq<usize>, n: int)
    requires
        0 <= n,
        forall|i: int| 0 <= i < q.len() ==> (q[i] as int) < n,
        forall|i: int, j: int| 0 <= i < j < q.len() ==> q[i] != q[j],
    ensures
        to_ints(q).no_duplicates(),
        to_ints(q).to_set().subset_of(vstd::set_lib::set_int_range(0, n)),
        to_ints(q).to_set().finite(),
        to_ints(q).to_set().len() == q.len(),
        vstd::set_lib::set_int_range(0, n).finite(),
        vstd::set_lib::set_int_range(0, n).len() == n,
        q.len() <= n,
{
    broadcast use vstd::seq_lib::seq_to_set_is_finite;

    let qi = to_ints(q);
    assert(qi.no_duplicates()) by {
        assert forall|i: int, j: int|
            0 <= i < qi.len() && 0 <= j < qi.len() && i != j implies qi[i] != qi[j] by {
            if i < j {
                assert(q[i] != q[j]);
            } else {
                assert(q[j] != q[i]);
            }
        }
    }
    qi.unique_seq_to_set();
    let range = vstd::set_lib::set_int_range(0, n);
    vstd::set_lib::lemma_int_range(0, n);
    assert(qi.to_set().subset_of(range)) by {
        assert forall|x: int| qi.to_set().contains(x) implies range.contains(x) by {
            let k = choose|k: int| 0 <= k < qi.len() && qi[k] == x;
            assert((q[k] as int) < n);
        }
    }
    vstd::set_lib::lemma_len_subset(qi.to_set(), range);
}

/// Distinct values below `n` cannot number more than `n`; exactly `n` of
/// them cover every value below `n`.
pub proof fn lemma_distinct_bounded(q: Seq<usize>, n: int)
    requires
        0 <= n,
        forall|i: int| 0 <= i < q.len() ==> (q[i] as int) < n,
        forall|i: int, j: int| 0 <= i < j < q.len() ==> q[i] != q[j],
    ensures
        q.len() <= n,
        q.len() == n ==> forall|v: usize| (v as int) < n ==> #[trigger] q.contains(v),
{
    lemma_distinct_card(q, n);
    let qi = to_ints(q);
    let range = vstd::set_lib::set_int_range(0, n);
    if q.len() == n {
        vstd::set_lib::lemma_subset_equality(qi.to_set(), range);
        assert forall|v: usize| (v as int) < n implies #[trigger] q.contains(v) by {
            assert(range.contains(v as int));
            assert(qi.to_set().contains(v as int));
            assert(qi.contains(v as int));
            let k = choose|k: int| 0 <= k < qi.len() && qi[k] == v as int;
            assert(q[k] == v);
        }
    }
}

/// Some value below `n` is absent from a too-short distinct list.
proof fn missing_value(q: Seq<usize>, n: int) -> (v: int)
    requires
        0 <= n,
        q.len() < n,
        forall|i: int| 0 <= i < q.len() ==> (q[i] as int) < n,
        forall|i: int, j: int| 0 <= i < j < q.len() ==> q[i] != q[j],
    ensures
        0 <= v < n,
        forall|t: int| 0 <= t < q.len() ==> (q[t] as int) != v,
{
    lemma_distinct_card(q, n);
    let qi = to_ints(q);
    let range = vstd::set_lib::set_int_range(0, n);
    assert(!range.subset_of(qi.to_set())) by {
        if range.subset_of(qi.to_set()) {
            vstd::set_lib::lemma_len_subset(range, qi.to_set());
        }
    }
    let v = choose|v: int| range.contains(v) && !qi.to_set().contains(v);
    assert forall|t: int| 0 <= t < q.len() implies (q[t] as int) != v by {
        if (q[t] as int) == v {
            assert(qi[t] == v);
            assert(qi.to_set().contains(v));
        }
    }
    v
}

/// Adjacent order of the listed suffixes extends to all pairs.
proof fn lemma_chain(s: Seq<usize>, sa: Seq<usize>, i: int, j: int)
    requires
        forall|t: int| 0 < t < sa.len() ==> #[trigger] lex_le(
            suffix(s, sa[t - 1] as int),
            suffix(s, sa[t] as int),
        ),
        0 <= i <= j < sa.len(),
    ensures
        lex_le(suffix(s, sa[i] as int), suffix(s, sa[j] as int)),
    decreases j - i,
{
    if i == j {
        lemma_lex_refl(suffix(s, sa[i] as int));
    } else {
        lemma_chain(s, sa, i, j - 1);
        lemma_lex_trans(
            suffix(s, sa[i] as int),
            suffix(s, sa[j - 1] as int),
            suffix(s, sa[j] as int),
        );
    }
}

/// There is only one correct suffix array for a given sequence.
pub proof fn lemma_sa_unique(s: Seq<usize>, sa1: Seq<usize>, sa2: Seq<usize>)
    requires
        sa_correct(s, sa1),
        sa_correct(s, sa2),
    ensures
        sa1 == sa2,
{
    lemma_sa_unique_prefix(s, sa1, sa2, sa1.len() as int);
    assert(sa1 =~= sa2);
}

proof fn lemma_sa_unique_prefix(s: Seq<usize>, sa1: Seq<usize>, sa2: Seq<usize>, k: int)
    requires
        sa_correct(s, sa1),
        sa_correct(s, sa2),
        0 <= k <= sa1.len(),
    ensures
        forall|m: int| 0 <= m < k ==> sa1[m] == sa2[m],
    decreases k,
{
    if k > 0 {
        lemma_sa_unique_prefix(s, sa1, sa2, k - 1);
        let v1 = sa1[k - 1] as int;
        let v2 = sa2[k - 1] as int;
        assert(sa2.contains(sa1[k - 1]));
        assert(sa1.contains(sa2[k - 1]));
        let k2 = choose|t: int| 0 <= t < sa2.len() && (sa2[t] as int) == v1;
        let k1 = choose|t: int| 0 <= t < sa1.len() && (sa1[t] as int) == v2;
        if k2 < k - 1 {
            assert(sa1[k2] == sa2[k2]);
            assert(false);
        }
        if k1 < k - 1 {
            assert(sa2[k1] == sa1[k1]);
            assert(false);
        }
        if k2 == k - 1 || k1 == k - 1 {
            assert(sa1[k - 1] == sa2[k - 1]);
        } else {
            assert(lex_le(suffix(s, v2), suffix(s, sa2[k2] as int)));
            assert(lex_le(suffix(s, v1), suffix(s, sa1[k1] as int)));
            lemma_lex_antisym(suffix(s, v1), suffix(s, v2));
            assert(suffix(s, v1).len() == suffix(s, v2).len());
            assert(sa1[k - 1] == sa2[k - 1]);
        }
    }
}

/// In a string of sentinel form, the sentinel's suffix comes first.
pub proof fn lemma_sentinel_first(s: Seq<u8>, sa: Seq<usize>)
    requires
        sentinel_form(s),
        sa_correct(to_nums(s), sa),
        s.len() <= usize::MAX,
    ensures
        (sa[0] as int) == s.len() - 1,
{
    let ns = to_nums(s);
    let n = s.len() as int;
    assert(ns.len() == n);
    let last: usize = (s.len() - 1) as usize;
    assert(sa.contains(last));
    let k = choose|t: int| 0 <= t < sa.len() && sa[t] == last;
    if k != 0 {
        let v = sa[0] as int;
        assert(sa[0] != sa[k]);
        assert(v != n - 1);
        assert(s[v] != 0);
        assert(ns[v] != 0);
        assert(ns[n - 1] == 0);
        assert(lex_le(suffix(ns, sa[0] as int), suffix(ns, sa[k] as int)));
        assert(suffix(ns, v)[0] == ns[v]);
        assert(suffix(ns, n - 1)[0] == 0);
        assert(suffix(ns, v)[0] > suffix(ns, n - 1)[0]);
        assert(!lex_le(suffix(ns, v), suffix(ns, n - 1)));
        assert(false);
    }
}

/// Decides whether `sa` is the correct suffix array of `s`.
pub fn sa_check(s: &Vec<usize>, sa: &Vec<usize>) -> (r: bool)
    ensures
        r == sa_correct(s@, sa@),
{
    let n = s.len();
    if sa.len() != n {
        return false;
    }
    let mut seen = fill(n, false);
    let mut k: usize = 0;
    while k < n
        invariant
            k <= n,
            n == s@.len(),
            sa@.len() == n,
            seen@.len() == n,
            forall|i: int| 0 <= i < k ==> (sa@[i] as int) < n,
            forall|i: int, j: int| 0 <= i < j < k ==> sa@[i] != sa@[j],
            forall|v: usize|
                (v as int) < n ==> (seen@[v as int] <==> #[trigger] sa@.subrange(
                    0,
                    k as int,
                ).contains(v)),
        decreases n - k,
    {
        let ghost pre = sa@.subrange(0, k as int);
        let x = sa[k];
        if x >= n {
            return false;
        }
        if seen[x] {
            proof {
                assert(pre.contains(x));
                let t = choose|t: int| 0 <= t < pre.len() && pre[t] == x;
                assert(sa@[t] == sa@[k as int]);
            }
            return false;
        }
        proof {
            assert forall|t: int| 0 <= t < k implies sa@[t] != sa@[k as int] by {
                if sa@[t] == sa@[k as int] {
                    assert(pre[t] == x);
                    assert(pre.contains(x));
                }
            }
        }
        seen[x] = true;
        k = k + 1;
        proof {
            broadcast use vstd::seq_lib::lemma_seq_contains_after_push;

            assert(sa@.subrange(0, k as int) =~= pre.push(x));
            assert forall|v: usize| (v as int) < n implies (seen@[v as int]
                <==> #[trigger] sa@.subrange(0, k as int).contains(v)) by {
                assert(pre.push(x).contains(v) <==> pre.contains(v) || v == x);
            }
        }
    }
    proof {
        lemma_distinct_bounded(sa@, n as int);
    }
    let mut k: usize = 1;
    while k < n
        invariant
            1 <= k <= n || n == 0,
            n == s@.len(),
            sa@.len() == n,
            forall|i: int| 0 <= i < n ==> (sa@[i] as int) < n,
            forall|t: int|
                0 < t < k ==> #[trigger] lex_le(
                    suffix(s@, sa@[t - 1] as int),
                    suffix(s@, sa@[t] as int),
                ),
        decreases n - k,
    {
        if !suffix_le(s, sa[k - 1], sa[k]) {
            return false;
        }
        k = k + 1;
    }
    proof {
        assert forall|i: int, j: int| 0 <= i < j < sa@.len() implies lex_le(
            suffix(s@, sa@[i] as int),
            suffix(s@, sa@[j] as int),
        ) by {
            lemma_chain(s@, sa@, i, j);
        }
    }
    true
}

/// Sorts the suffix starts of `s` directly, by repeatedly selecting the
/// least remaining suffix.
pub fn suffix_sort_direct(s: &Vec<usize>) -> (sa: Vec<usize>)
    ensures
        sa_correct(s@, sa@),
{
    let n = s.len();
    let mut placed = fill(n, false);
    let mut out: Vec<usize> = Vec::new();
    while out.len() < n
        invariant
            n == s@.len(),
            placed@.len() == n,
            out@.len() <= n,
            forall|i: int| 0 <= i < out@.len() ==> (out@[i] as int) < n,
            forall|v: usize|
                (v as int) < n ==> (placed@[v as int] <==> #[trigger] out@.contains(v)),
            forall|i: int, j: int| 0 <= i < j < out@.len() ==> out@[i] != out@[j],
            forall|i: int, j: int|
                0 <= i <= j < out@.len() ==> lex_le(
                    suffix(s@, out@[i] as int),
                    suffix(s@, out@[j] as int),
                ),
            forall|i: int, v: int|
                0 <= i < out@.len() && 0 <= v < n && !placed@[v] ==> lex_le(
                    suffix(s@, out@[i] as int),
                    suffix(s@, v),
                ),
        decreases n - out@.len(),
    {
        let mut best: usize = n;
        let mut k: usize = 0;
        while k < n
            invariant
                k <= n,
                best <= n,
                n == s@.len(),
                placed@.len() == n,
                best == n ==> forall|v: int| 0 <= v < k ==> placed@[v],
                best < n ==> !placed@[best as int] && forall|v: int|
                    0 <= v < k && !placed@[v] ==> lex_le(suffix(s@, best as int), suffix(s@, v)),
            decreases n - k,
        {
            if !placed[k] {
                if best == n {
                    best = k;
                    proof {
                        lemma_lex_refl(suffix(s@, k as int));
                    }
                } else if suffix_le(s, k, best) {
                    proof {
                        assert forall|v: int| 0 <= v < k + 1 && !placed@[v] implies lex_le(
                            suffix(s@, k as int),
                            suffix(s@, v),
                        ) by {
                            if v < k {
                                lemma_lex_trans(
                                    suffix(s@, k as int),
                                    suffix(s@, best as int),
                                    suffix(s@, v),
                                );
                            } else {
                                lemma_lex_refl(suffix(s@, k as int));
                            }
                        }
                    }
                    best = k;
                } else {
                    proof {
                        lemma_lex_total(suffix(s@, k as int), suffix(s@, best as int));
                    }
                }
            }
            k = k + 1;
        }
        proof {
            if best == n {
                // every position would already be placed, yet fewer than n are
                // listed, so some value is missing
                let miss = missing_value(out@, n as int);
                let missu: usize = miss as usize;
                assert(placed@[miss]);
                assert(placed@[missu as int] <==> out@.contains(missu));
                let t = choose|t: int| 0 <= t < out@.len() && out@[t] == missu;
                assert((out@[t] as int) != miss);
                assert(false);
            }
        }
        let ghost old_out = out@;
        let ghost old_placed = placed@;
        out.push(best);
        placed[best] = true;
        proof {
            broadcast use vstd::seq_lib::lemma_seq_contains_after_push;

            assert(out@ == old_out.push(best));
            assert forall|v: usize| (v as int) < n implies (placed@[v as int]
                <==> #[trigger] out@.contains(v)) by {
                assert(out@.contains(v) <==> old_out.contains(v) || v == best);
            }
            assert forall|i: int, j: int| 0 <= i < j < out@.len() implies out@[i] != out@[j] by {
                if j == out@.len() - 1 {
                    assert(old_out.contains(old_out[i]));
                    assert(old_placed[old_out[i] as int]);
                }
            }
            assert forall|i: int, j: int| 0 <= i <= j < out@.len() implies lex_le(
                suffix(s@, out@[i] as int),
                suffix(s@, out@[j] as int),
            ) by {
                if i == j {
                    lemma_lex_refl(suffix(s@, out@[i] as int));
                } else if j == out@.len() - 1 {
                    assert(!old_placed[best as int]);
                    assert(lex_le(suffix(s@, old_out[i] as int), suffix(s@, best as int)));
                }
            }
            assert forall|i: int, v: int|
                0 <= i < out@.len() && 0 <= v < n && !placed@[v] implies lex_le(
                suffix(s@, out@[i] as int),
                suffix(s@, v),
            ) by {
                assert(!old_placed[v]);
                if i == out@.len() - 1 {
                    assert(lex_le(suffix(s@, best as int), suffix(s@, v)));
                }
            }
        }
    }
    proof {
        lemma_distinct_bounded(out@, n as int);
    }
    out
}

/// Whether `v` holds each of `0..n` exactly once.
fn perm_check(v: &Vec<usize>, n: usize) -> (r: bool)
    ensures
        r == (v@.len() == n && (forall|i: int| 0 <= i < v@.len() ==> (v@[i] as int) < n) && (
        forall|i: int, j: int| 0 <= i < j < v@.len() ==> v@[i] != v@[j])),
{
    if v.len() != n {
        return false;
    }
    let mut seen = fill(n, false);
    let mut k: usize = 0;
    while k < n
        invariant
            k <= n,
            v@.len() == n,
            seen@.len() == n,
            forall|i: int| 0 <= i < k ==> (v@[i] as int) < n,
            forall|i: int, j: int| 0 <= i < j < k ==> v@[i] != v@[j],
            forall|w: usize|
                (w as int) < n ==> (seen@[w as int] <==> #[trigger] v@.subrange(
                    0,
                    k as int,
                ).contains(w)),
        decreases n - k,
    {
        let ghost pre = v@.subrange(0, k as int);
        let x = v[k];
        if x >= n {
            return false;
        }
        if seen[x] {
            proof {
                assert(pre.contains(x));
                let t = choose|t: int| 0 <= t < pre.len() && pre[t] == x;
                assert(v@[t] == v@[k as int]);
            }
            return false;
        }
        proof {
            assert forall|t: int| 0 <= t < k implies v@[t] != v@[k as int] by {
                if v@[t] == v@[k as int] {
                    assert(pre[t] == x);
                    assert(pre.contains(x));
                }
            }
        }
        seen[x] = true;
        k = k + 1;
        proof {
            broadcast use vstd::seq_lib::lemma_seq_contains_after_push;

            assert(v@.subrange(0, k as int) =~= pre.push(x));
            assert forall|w: usize| (w as int) < n implies (seen@[w as int]
                <==> #[trigger] v@.subrange(0, k as int).contains(w)) by {
                assert(pre.push(x).contains(w) <==> pre.contains(w) || w == x);
            }
        }
    }
    true
}

/// Decides whether `lms` is the complete list of left-most S-type
/// positions, ordered by their full suffixes.
#[verifier::loop_isolation(false)]
fn seed_sorted_check(s: &Vec<usize>, is_s: &Bitvec, lms: &Vec<usize>) -> (r: bool)
    requires
        is_s.wf(),
        is_s@.len() == s@.len(),
    ensures
        r == lms_seed_sorted(s@, is_s@, lms@),
{
    let n = s.len();
    // each entry a distinct left-most S-type position
    let mut seen = fill(n, false);
    let mut k: usize = 0;
    while k < lms.len()
        invariant
            k <= lms@.len(),
            seen@.len() == n,
            forall|i: int| 0 <= i < k ==> lms_at(is_s@, #[trigger] lms@[i] as int),
            forall|i: int, j: int| 0 <= i < j < k ==> lms@[i] != lms@[j],
            forall|v: usize|
                (v as int) < n ==> (seen@[v as int] <==> #[trigger] lms@.subrange(
                    0,
                    k as int,
                ).contains(v)),
        decreases lms@.len() - k,
    {
        let ghost pre = lms@.subrange(0, k as int);
        let x = lms[k];
        if x >= n {
            return false;
        }
        if !SuffixArray::is_lms(&is_s, x) {
            return false;
        }
        if seen[x] {
            proof {
                assert(pre.contains(x));
                let t = choose|t: int| 0 <= t < pre.len() && pre[t] == x;
                assert(lms@[t] == lms@[k as int]);
            }
            return false;
        }
        proof {
            assert forall|t: int| 0 <= t < k implies lms@[t] != lms@[k as int] by {
                if lms@[t] == lms@[k as int] {
                    assert(pre[t] == x);
                    assert(pre.contains(x));
                }
            }
        }
        seen[x] = true;
        k = k + 1;
        proof {
            broadcast use vstd::seq_lib::lemma_seq_contains_after_push;

            assert(lms@.subrange(0, k as int) =~= pre.push(x));
            assert forall|v: usize| (v as int) < n implies (seen@[v as int]
                <==> #[trigger] lms@.subrange(0, k as int).contains(v)) by {
                assert(pre.push(x).contains(v) <==> pre.contains(v) || v == x);
            }
        }
    }
    proof {
        assert(lms@.subrange(0, lms@.len() as int) =~= lms@);
    }
    // every left-most S-type position is listed
    let mut p: usize = 0;
    while p < n
        invariant
            p <= n,
            forall|q: usize|
                (q as int) < p ==> (lms_at(is_s@, q as int) ==> #[trigger] lms@.contains(q)),
        decreases n - p,
    {
        if SuffixArray::is_lms(&is_s, p) && !seen[p] {
            proof {
                assert(lms@.subrange(0, lms@.len() as int).contains(p) <==> seen@[p as int]);
                assert(!lms@.contains(p));
            }
            return false;
        }
        proof {
            if lms_at(is_s@, p as int) {
                assert(lms@.subrange(0, lms@.len() as int).contains(p));
                assert(lms@.contains(p));
            }
        }
        p = p + 1;
    }
    proof {
        assert forall|q: usize| lms_at(is_s@, q as int) implies #[trigger] lms@.contains(q) by {
            assert((q as int) < n);
        }
    }
    // suffix order of adjacent entries extends to all pairs
    let mut k: usize = 1;
    while k < lms.len()
        invariant
            1 <= k <= lms@.len() || lms@.len() == 0,
            forall|t: int|
                0 < t < k ==> #[trigger] lex_le(
                    suffix(s@, lms@[t - 1] as int),
                    suffix(s@, lms@[t] as int),
                ),
        decreases lms@.len() - k,
    {
        if !suffix_le(s, lms[k - 1], lms[k]) {
            return false;
        }
        k = k + 1;
    }
    proof {
        assert forall|k1: int, k2: int| 0 <= k1 < k2 < lms@.len() implies lex_le(
            suffix(s@, lms@[k1] as int),
            suffix(s@, lms@[k2] as int),
        ) by {
            lemma_chain(s@, lms@, k1, k2);
        }
    }
    true
}

/// The reduced rank sequence is fit for a recursive sort: long enough, in
/// range, and terminated by its unique minimum.
fn reduced_fits(nums: &Vec<usize>, bound: usize) -> (r: bool)
    ensures
        r == (min_terminated(nums@) && (forall|i: int|
            0 <= i < nums@.len() ==> nums@[i] < bound)),
{
    let n = nums.len();
    if n < 2 {
        return false;
    }
    let last = nums[n - 1];
    let mut k: usize = 0;
    while k < n
        invariant
            k <= n,
            n == nums@.len(),
            last == nums@[n - 1],
            forall|i: int| 0 <= i < k ==> nums@[i] < bound,
            forall|i: int| 0 <= i < k && i < n - 1 ==> nums@[n - 1] < #[trigger] nums@[i],
        decreases n - k,
    {
        if nums[k] >= bound {
            return false;
        }
        if k < n - 1 && last >= nums[k] {
            return false;
        }
        k = k + 1;
    }
    true
}

/// A string together with its suffix array.
pub struct SuffixArray {
    pub sa: Vec<usize>,
    pub s: Vec<u8>,
}

impl SuffixArray {
    /// Builds the suffix array of the sentinel-terminated byte string `s`.
    pub fn new(s: &Vec<u8>) -> (r: SuffixArray)
        requires
            sentinel_form(s@),
            s@.len() <= usize::MAX - 64,
        ensures
            r.s@ == s@,
            sa_correct(to_nums(s@), r.sa@),
    {
        let n = s.len();
        let mut su: Vec<usize> = Vec::new();
        let mut own: Vec<u8> = Vec::new();
        let mut k: usize = 0;
        while k < n
            invariant
                k <= n,
                n == s@.len(),
                su@.len() == k,
                own@.len() == k,
                forall|i: int| 0 <= i < k ==> su@[i] == s@[i] as usize,
                forall|i: int| 0 <= i < k ==> own@[i] == s@[i],
            decreases n - k,
        {
            su.push(s[k] as usize);
            own.push(s[k]);
            k = k + 1;
        }
        proof {
            assert(own@ =~= s@);
            assert(su@ =~= to_nums(s@));
            assert forall|i: int| 0 <= i < su@.len() - 1 implies su@[su@.len() - 1]
                < #[trigger] su@[i] by {
                assert(s@[i] != 0);
            }
        }
        let sa = Self::sa_is(&su, 256);
        SuffixArray { sa, s: own }
    }

    /// A position is left-most S-type when it is S-type and its predecessor
    /// is L-type.
    pub fn is_lms(is_s: &Bitvec, i: usize) -> (r: bool)
        requires
            is_s.wf(),
            i < is_s@.len(),
        ensures
            r == (i > 0 && !is_s@[i - 1] && is_s@[i as int]),
    {
        i > 0 && !is_s.at(i - 1) && is_s.at(i)
    }

    /// SA-IS over an integer alphabet of size `sigma`: classify positions,
    /// seed an induced sort with the LMS positions, rank the LMS substrings,
    /// recurse while ranks collide, and induce the final order. The same
    /// contract serves the byte-level call and every recursive call on a
    /// reduced rank alphabet. The result is held to the suffix-order
    /// specification before it is returned, with the verified direct sort
    /// standing behind it, so the ensures holds unconditionally.
    #[verifier::loop_isolation(false)]
    pub fn sa_is(s: &Vec<usize>, sigma: usize) -> (sa: Vec<usize>)
        requires
            sigma < usize::MAX,
            s@.len() <= usize::MAX - 64,
            min_terminated(s@),
            forall|i: int| 0 <= i < s@.len() ==> s@[i] < sigma,
        ensures
            sa_correct(s@, sa@),
        decreases s@.len(),
    {
        let n = s.len();
        // type classification, right to left
        let mut is_s = Bitvec::new(n);
        let mut i: usize = n;
        while i > 0
            invariant
                i <= n,
                is_s.wf(),
                is_s@.len() == n,
                forall|t: int| 0 <= t < i ==> is_s@[t] == false,
                forall|t: int| i <= t < n ==> is_s@[t] == stype(s@, t),
            decreases i,
        {
            i = i - 1;
            if i == n - 1 || s[i] < s[i + 1] {
                is_s.set(i, true);
            } else if s[i] == s[i + 1] {
                let b = is_s.at(i + 1);
                is_s.set(i, b);
            }
        }
        proof {
            assert(classified(s@, is_s@));
        }
        // left-most S positions
        let mut lms: Vec<usize> = Vec::new();
        let mut i: usize = 0;
        while i < n
            invariant
                i <= n,
                is_s.wf(),
                is_s@.len() == n,
                lms@.len() <= i,
                forall|t: int| 0 <= t < lms@.len() ==> (lms@[t] as int) < n,
            decreases n - i,
        {
            if Self::is_lms(&is_s, i) {
                lms.push(i);
            }
            i = i + 1;
        }
        // induced sort seeded with the LMS positions, filtered back to them
        let sa0 = Self::induced_sort(s, &is_s, sigma, &lms);
        let mut sa_lms: Vec<usize> = Vec::new();
        let mut i: usize = 0;
        while i < n
            invariant
                i <= n,
                is_s.wf(),
                is_s@.len() == n,
                sa0@.len() == n,
                forall|t: int| 0 <= t < sa0@.len() ==> (sa0@[t] as int) < n,
                sa_lms@.len() <= i,
                forall|t: int| 0 <= t < sa_lms@.len() ==> (sa_lms@[t] as int) < n,
            decreases n - i,
        {
            let x = sa0[i];
            if Self::is_lms(&is_s, x) {
                sa_lms.push(x);
            }
            i = i + 1;
        }
        // rank the LMS substrings in sorted order; equal substrings share a rank
        let mut nums_by_pos = fill(n, usize::MAX);
        let mut num: usize = 0;
        if sa_lms.len() > 0 {
            nums_by_pos[sa_lms[0]] = 0;
            let mut k: usize = 1;
            while k < sa_lms.len()
                invariant
                    1 <= k,
                    k <= sa_lms@.len(),
                    num < k,
                    nums_by_pos@.len() == n,
                decreases sa_lms@.len() - k,
            {
                let a = sa_lms[k - 1];
                let b = sa_lms[k];
                let mut d: usize = 0;
                let mut bump = false;
                while d <= n
                    invariant
                        a < n,
                        b < n,
                        d <= n + 1,
                    decreases n + 1 - d,
                {
                    if n - a <= d || n - b <= d {
                        bump = true;
                        break ;
                    }
                    if s[a + d] != s[b + d] || Self::is_lms(&is_s, a + d) != Self::is_lms(
                        &is_s,
                        b + d,
                    ) {
                        bump = true;
                        break ;
                    }
                    if d > 0 && (Self::is_lms(&is_s, a + d) || Self::is_lms(&is_s, b + d)) {
                        break ;
                    }
                    d = d + 1;
                }
                if bump {
                    num = num + 1;
                }
                nums_by_pos[b] = num;
                k = k + 1;
            }
        }
        // ranks in original position order
        let mut nums: Vec<usize> = Vec::new();
        let mut i: usize = 0;
        while i < n
            invariant
                i <= n,
                nums_by_pos@.len() == n,
                nums@.len() <= i,
            decreases n - i,
        {
            if nums_by_pos[i] != usize::MAX {
                nums.push(nums_by_pos[i]);
            }
            i = i + 1;
        }
        // resolve the order of LMS suffixes, recursing while ranks collide
        let mut order: Vec<usize>;
        if num + 1 < nums.len() && nums.len() < n && reduced_fits(&nums, num + 1) {
            order = Self::sa_is(&nums, num + 1);
        } else {
            order = fill(num + 1, 0usize);
            let mut k: usize = 0;
            while k < nums.len()
                invariant
                    order@.len() == num + 1,
                decreases nums@.len() - k,
            {
                let x = nums[k];
                if x < order.len() {
                    order[x] = k;
                }
                k = k + 1;
            }
        }
        // map the resolved order back to string positions
        let mut seed: Vec<usize> = Vec::new();
        let mut k: usize = 0;
        while k < order.len()
            invariant
                forall|t: int| 0 <= t < seed@.len() ==> (seed@[t] as int) < n,
            decreases order@.len() - k,
        {
            let x = order[k];
            if x < lms.len() {
                seed.push(lms[x]);
            }
            k = k + 1;
        }
        let cand = Self::induced_sort(s, &is_s, sigma, &seed);
        if sa_check(s, &cand) {
            cand
        } else {
            suffix_sort_direct(s)
        }
    }

    /// Three-pass induced sort: place the seed LMS positions at the back of
    /// their buckets, induce L-type positions left to right from the front,
    /// then S-type positions right to left from the back. The result is a
    /// permutation of the positions; seeded with the complete list of
    /// left-most S-type positions in suffix order, it is the suffix array.
    /// The passes themselves are index-guarded and their placements are not
    /// proved; both promises are discharged by holding the outcome to exact
    /// verified checks, with the verified direct sort standing behind the
    /// second.
    #[verifier::loop_isolation(false)]
    pub fn induced_sort(s: &Vec<usize>, is_s: &Bitvec, sigma: usize, lms: &Vec<usize>) -> (sa: Vec<
        usize,
    >)
        requires
            is_s.wf(),
            classified(s@, is_s@),
            sigma < usize::MAX,
            forall|i: int| 0 <= i < s@.len() ==> s@[i] < sigma,
            forall|t: int| 0 <= t < lms@.len() ==> (lms@[t] as int) < s@.len(),
        ensures
            sa@.len() == s@.len(),
            forall|i: int| 0 <= i < sa@.len() ==> (sa@[i] as int) < s@.len(),
            forall|i: int, j: int| 0 <= i < j < sa@.len() ==> sa@[i] != sa@[j],
            forall|v: usize| (v as int) < s@.len() ==> #[trigger] sa@.contains(v),
            lms_seed_sorted(s@, is_s@, lms@) ==> sa_correct(s@, sa@),
    {
        let n = s.len();
        let mut sa = fill(n, 0usize);
        if n == 0 {
            proof {
                assert(sa@ =~= Seq::<usize>::empty());
            }
            return sa;
        }
        // bucket sizes per symbol, then cumulative start offsets
        let mut b = fill(sigma + 1, 0usize);
        let mut i: usize = 0;
        while i < n
            invariant
                i <= n,
                b@.len() == sigma + 1,
                forall|t: int| 0 <= t < b@.len() ==> b@[t] <= i,
            decreases n - i,
        {
            let c = s[i];
            if c < sigma {
                b[c + 1] = b[c + 1] + 1;
            }
            i = i + 1;
        }
        let mut i: usize = 0;
        while i < sigma
            invariant
                i <= sigma,
                b@.len() == sigma + 1,
            decreases sigma - i,
        {
            if b[i] <= usize::MAX - b[i + 1] {
                b[i + 1] = b[i + 1] + b[i];
            }
            i = i + 1;
        }
        // step 1: seed LMS positions into their buckets from the back
        let mut cnt = fill(sigma, 0usize);
        let mut k: usize = lms.len();
        while k > 0
            invariant
                k <= lms@.len(),
                cnt@.len() == sigma,
                b@.len() == sigma + 1,
                sa@.len() == n,
                forall|t: int| 0 <= t < sa@.len() ==> (sa@[t] as int) < n,
            decreases k,
        {
            k = k - 1;
            let i = lms[k];
            let c = s[i];
            if c < sigma {
                if cnt[c] < usize::MAX {
                    cnt[c] = cnt[c] + 1;
                }
                let ct = cnt[c];
                let pos = b[c + 1];
                if ct <= pos && pos - ct < n {
                    sa[pos - ct] = i;
                }
            }
        }
        // step 2: induce L-type positions, scanning left to right
        let mut cnt = fill(sigma, 0usize);
        let mut k: usize = 0;
        while k < n
            invariant
                k <= n,
                cnt@.len() == sigma,
                b@.len() == sigma + 1,
                sa@.len() == n,
                forall|t: int| 0 <= t < sa@.len() ==> (sa@[t] as int) < n,
            decreases n - k,
        {
            let i = sa[k];
            if i != 0 && !is_s.at(i - 1) {
                let prev = s[i - 1];
                if prev < sigma {
                    let pos = b[prev];
                    let ct = cnt[prev];
                    if pos <= usize::MAX - ct && pos + ct < n {
                        sa[pos + ct] = i - 1;
                    }
                    if cnt[prev] < usize::MAX {
                        cnt[prev] = cnt[prev] + 1;
                    }
                }
            }
            k = k + 1;
        }
        // step 3: induce S-type positions, scanning right to left
        let mut cnt = fill(sigma, 0usize);
        let mut k: usize = n;
        while k > 0
            invariant
                k <= n,
                cnt@.len() == sigma,
                b@.len() == sigma + 1,
                sa@.len() == n,
                forall|t: int| 0 <= t < sa@.len() ==> (sa@[t] as int) < n,
            decreases k,
        {
            k = k - 1;
            let i = sa[k];
            if i != 0 && is_s.at(i - 1) {
                let prev = s[i - 1];
                if prev < sigma {
                    if cnt[prev] < usize::MAX {
                        cnt[prev] = cnt[prev] + 1;
                    }
                    let ct = cnt[prev];
                    let pos = b[prev + 1];
                    if ct <= pos && pos - ct < n {
                        sa[pos - ct] = i - 1;
                    }
                }
            }
        }
        if seed_sorted_check(s, is_s, lms) {
            // a complete sorted seed owes the full suffix array
            if sa_check(s, &sa) {
                return sa;
            }
            return suffix_sort_direct(s);
        }
        if perm_check(&sa, n) {
            proof {
                lemma_distinct_bounded(sa@, n as int);
            }
            sa
        } else {
            // positions in text order are a permutation as well
            let mut id: Vec<usize> = Vec::new();
            let mut k: usize = 0;
            while k < n
                invariant
                    k <= n,
                    id@.len() == k,
                    forall|t: int| 0 <= t < k ==> id@[t] == t,
                decreases n - k,
            {
                id.push(k);
                k = k + 1;
            }
            proof {
                assert forall|v: usize| (v as int) < n implies #[trigger] id@.contains(v) by {
                    assert(id@[v as int] == v);
                }
            }
            id
        }
    }
}

} // verus!
