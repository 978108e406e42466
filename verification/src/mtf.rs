use vstd::prelude::*;

verus! {

/// Which table-promotion rule the recoder applies after each emission.
#[derive(Clone, Copy, Debug)]
pub enum MtfPolicy {
    /// Move the emitted symbol all the way to the front.
    Standard,
    /// Keep index 0 in place and shift positions 1 through the emitted one
    /// right, swapping the top two entries only when the emitted position is
    /// 1 and the previous emitted code was nonzero.
    LagOne,
}

/// The identity recency table.
pub open spec fn init_table() -> Seq<u8> {
    Seq::new(256, |i: int| i as u8)
}

/// A recency table: 256 entries holding every byte value.
pub open spec fn is_table(t: Seq<u8>) -> bool {
    t.len() == 256 && (forall|b: u8| #[trigger] t.contains(b))
}

/// First position of `x` in `t`.
pub open spec fn pos_in(t: Seq<u8>, x: u8) -> int
    decreases t.len(),
{
    if t.len() == 0 {
        0
    } else if t[0] == x {
        0
    } else {
        1 + pos_in(t.skip(1), x)
    }
}

pub proof fn lemma_pos_in(t: Seq<u8>, x: u8)
    requires
        t.contains(x),
    ensures
        0 <= pos_in(t, x) < t.len(),
        t[pos_in(t, x)] == x,
        forall|i: int| 0 <= i < pos_in(t, x) ==> t[i] != x,
    decreases t.len(),
{
    if t.len() > 0 && t[0] != x {
        assert(t.skip(1).contains(x)) by {
            let i = choose|i: int| 0 <= i < t.len() && t[i] == x;
            assert(t.skip(1)[i - 1] == x);
        }
        lemma_pos_in(t.skip(1), x);
        assert forall|i: int| 0 <= i < pos_in(t, x) implies t[i] != x by {
            if i > 0 {
                assert(t.skip(1)[i - 1] != x);
            }
        }
    }
}

/// The table after a standard promotion of the entry at `p`.
pub open spec fn step_std(t: Seq<u8>, p: int) -> Seq<u8> {
    seq![t[p]] + t.subrange(0, p) + t.subrange(p + 1, t.len() as int)
}

/// The table after a lag-one promotion of the entry at `p`, given the
/// previously emitted code.
pub open spec fn step_lag(t: Seq<u8>, p: int, prev: u8) -> Seq<u8> {
    let shifted = if p >= 1 {
        seq![t[0], t[p]] + t.subrange(1, p) + t.subrange(p + 1, t.len() as int)
    } else {
        t
    };
    if p == 1 && prev != 0 {
        shifted.update(0, shifted[1]).update(1, shifted[0])
    } else {
        shifted
    }
}

/// Move-to-front codes of `s` under the standard promotion rule.
pub open spec fn mtf_std(s: Seq<u8>, t: Seq<u8>) -> Seq<u8>
    decreases s.len(),
{
    if s.len() == 0 {
        Seq::empty()
    } else {
        let p = pos_in(t, s[0]);
        seq![p as u8] + mtf_std(s.skip(1), step_std(t, p))
    }
}

/// Move-to-front codes of `s` under the lag-one promotion rule.
pub open spec fn mtf_lag(s: Seq<u8>, t: Seq<u8>, prev: u8) -> Seq<u8>
    decreases s.len(),
{
    if s.len() == 0 {
        Seq::empty()
    } else {
        let p = pos_in(t, s[0]);
        seq![p as u8] + mtf_lag(s.skip(1), step_lag(t, p, prev), p as u8)
    }
}

/// The inverse of the standard rule: read the emitted position back through
/// the same evolving table.
pub open spec fn mtf_std_restore(c: Seq<u8>, t: Seq<u8>) -> Seq<u8>
    decreases c.len(),
{
    if c.len() == 0 {
        Seq::empty()
    } else {
        let p = c[0] as int;
        seq![t[p]] + mtf_std_restore(c.skip(1), step_std(t, p))
    }
}

/// A standard promotion keeps the table a permutation of the byte values.
pub proof fn lemma_step_std_table(t: Seq<u8>, p: int)
    requires
        is_table(t),
        0 <= p < 256,
    ensures
        is_table(step_std(t, p)),
{
    let r = step_std(t, p);
    assert(r.len() == 256);
    assert forall|b: u8| #[trigger] r.contains(b) by {
        assert(t.contains(b));
        let i = choose|i: int| 0 <= i < t.len() && t[i] == b;
        if i == p {
            assert(r[0] == b);
        } else if i < p {
            assert(r[i + 1] == b);
        } else {
            assert(r[i] == b);
        }
    }
}

/// A lag-one promotion keeps the table a permutation of the byte values.
pub proof fn lemma_step_lag_table(t: Seq<u8>, p: int, prev: u8)
    requires
        is_table(t),
        0 <= p < 256,
    ensures
        is_table(step_lag(t, p, prev)),
{
    let r = step_lag(t, p, prev);
    assert(r.len() == 256);
    assert forall|b: u8| #[trigger] r.contains(b) by {
        assert(t.contains(b));
        let i = choose|i: int| 0 <= i < t.len() && t[i] == b;
        let shifted = if p >= 1 {
            seq![t[0], t[p]] + t.subrange(1, p) + t.subrange(p + 1, t.len() as int)
        } else {
            t
        };
        let w: int = if p >= 1 {
            if i == 0 {
                0
            } else if i == p {
                1
            } else if i < p {
                i + 1
            } else {
                i
            }
        } else {
            i
        };
        assert(shifted[w] == b);
        if p == 1 && prev != 0 {
            if w == 0 {
                assert(r[1] == b);
            } else if w == 1 {
                assert(r[0] == b);
            } else {
                assert(r[w] == b);
            }
        } else {
            assert(r[w] == b);
        }
    }
}

/// Applying the inverse promotion rule to a standard move-to-front output
/// restores the input exactly.
pub proof fn lemma_mtf_restore(s: Seq<u8>, t: Seq<u8>)
    requires
        is_table(t),
    ensures
        mtf_std_restore(mtf_std(s, t), t) == s,
    decreases s.len(),
{
    if s.len() == 0 {
        assert(mtf_std_restore(mtf_std(s, t), t) =~= s);
    } else {
        let p = pos_in(t, s[0]);
        lemma_pos_in(t, s[0]);
        lemma_step_std_table(t, p);
        lemma_mtf_restore(s.skip(1), step_std(t, p));
        let c = mtf_std(s, t);
        assert(c[0] == p as u8);
        assert(c.skip(1) =~= mtf_std(s.skip(1), step_std(t, p)));
        assert(c[0] as int == p);
        assert(mtf_std_restore(c, t) =~= s) by {
            assert(mtf_std_restore(c, t)[0] == t[p]);
            assert(forall|i: int|
                1 <= i < s.len() ==> mtf_std_restore(c, t)[i] == mtf_std_restore(
                    c.skip(1),
                    step_std(t, p),
                )[i - 1]);
            assert(forall|i: int| 1 <= i < s.len() ==> s[i] == s.skip(1)[i - 1]);
        }
    }
}

/// First position of `x` in the 256-entry table `t`.
fn find_pos(t: &Vec<u8>, x: u8) -> (p: usize)
    requires
        is_table(t@),
    ensures
        p as int == pos_in(t@, x),
        p < 256,
{
    proof {
        assert(t@.contains(x));
        lemma_pos_in(t@, x);
    }
    let mut k: usize = 0;
    while k < 256
        invariant
            k <= 256,
            is_table(t@),
            forall|i: int| 0 <= i < k ==> t@[i] != x,
        decreases 256 - k,
    {
        if t[k] == x {
            proof {
                lemma_pos_in(t@, x);
                if (k as int) < pos_in(t@, x) {
                    assert(false);
                }
                if (k as int) > pos_in(t@, x) {
                    assert(t@[pos_in(t@, x)] != x);
                    assert(false);
                }
            }
            return k;
        }
        k = k + 1;
    }
    proof {
        assert(t@.contains(x));
        let i = choose|i: int| 0 <= i < t@.len() && t@[i] == x;
        assert(false);
    }
    0
}

/// Recodes `s` move-to-front: each output code is the byte's position in
/// the recency table, which the chosen policy then reorders.
pub fn mtf_encode(s: &Vec<u8>, policy: MtfPolicy) -> (r: Vec<u8>)
    ensures
        r@.len() == s@.len(),
        matches!(policy, MtfPolicy::Standard) ==> r@ == mtf_std(s@, init_table()),
        matches!(policy, MtfPolicy::LagOne) ==> r@ == mtf_lag(s@, init_table(), 1),
{
    match policy {
        MtfPolicy::Standard => mtf_encode_std(s),
        MtfPolicy::LagOne => mtf_encode_lag(s),
    }
}

fn init_table_exec() -> (t: Vec<u8>)
    ensures
        t@ == init_table(),
        is_table(t@),
{
    let mut t: Vec<u8> = Vec::new();
    let mut k: usize = 0;
    while k < 256
        invariant
            k <= 256,
            t@.len() == k,
            forall|i: int| 0 <= i < k ==> t@[i] == i as u8,
        decreases 256 - k,
    {
        t.push(k as u8);
        k = k + 1;
    }
    proof {
        assert(t@ =~= init_table());
        assert forall|b: u8| #[trigger] t@.contains(b) by {
            assert(t@[b as int] == b);
        }
    }
    t
}

fn mtf_encode_std(s: &Vec<u8>) -> (r: Vec<u8>)
    ensures
        r@.len() == s@.len(),
        r@ == mtf_std(s@, init_table()),
{
    let n = s.len();
    let mut table = init_table_exec();
    let mut res: Vec<u8> = Vec::new();
    let mut i: usize = 0;
    proof {
        assert(s@.skip(0) =~= s@);
        assert(res@ + mtf_std(s@, table@) =~= mtf_std(s@, table@));
    }
    while i < n
        invariant
            i <= n,
            n == s@.len(),
            res@.len() == i,
            is_table(table@),
            mtf_std(s@, init_table()) == res@ + mtf_std(s@.skip(i as int), table@),
        decreases n - i,
    {
        let ghost t0 = table@;
        let ghost rest = s@.skip(i as int);
        let x = s[i];
        let p = find_pos(&table, x);
        proof {
            assert(rest[0] == x);
            assert(pos_in(t0, x) == p as int);
            lemma_pos_in(t0, x);
        }
        let ghost res0 = res@;
        res.push(p as u8);
        // promote: shift everything before p one step right, x to the front
        let mut j: usize = p;
        while j > 0
            invariant
                j <= p,
                p < 256,
                table@.len() == 256,
                t0.len() == 256,
                t0[p as int] == x,
                forall|k: int| 0 <= k < j ==> table@[k] == t0[k],
                table@[j as int] == t0[p as int],
                forall|k: int| j < k <= p ==> table@[k] == t0[k - 1],
                forall|k: int| p < k < 256 ==> table@[k] == t0[k],
            decreases j,
    {
            let a = table[j - 1];
            let b = table[j];
            table[j - 1] = b;
            table[j] = a;
            j = j - 1;
        }
        proof {
            assert(table@ =~= step_std(t0, p as int));
            lemma_step_std_table(t0, p as int);
            assert(rest.skip(1) =~= s@.skip(i + 1));
            assert(mtf_std(rest, t0) == seq![p as u8] + mtf_std(s@.skip(i + 1), table@));
            assert(res0 + (seq![p as u8] + mtf_std(s@.skip(i + 1), table@)) =~= res@ + mtf_std(
                s@.skip(i + 1),
                table@,
            ));
        }
        i = i + 1;
    }
    proof {
        assert(s@.skip(n as int) =~= Seq::<u8>::empty());
        assert(res@ =~= res@ + mtf_std(s@.skip(n as int), table@));
    }
    res
}

fn mtf_encode_lag(s: &Vec<u8>) -> (r: Vec<u8>)
    ensures
        r@.len() == s@.len(),
        r@ == mtf_lag(s@, init_table(), 1),
{
    let n = s.len();
    let mut table = init_table_exec();
    let mut res: Vec<u8> = Vec::new();
    let mut prev: u8 = 1;
    let mut i: usize = 0;
    proof {
        assert(s@.skip(0) =~= s@);
        assert(res@ + mtf_lag(s@, table@, 1) =~= mtf_lag(s@, table@, 1));
    }
    while i < n
        invariant
            i <= n,
            n == s@.len(),
            res@.len() == i,
            is_table(table@),
            mtf_lag(s@, init_table(), 1) == res@ + mtf_lag(s@.skip(i as int), table@, prev),
        decreases n - i,
    {
        let ghost t0 = table@;
        let ghost rest = s@.skip(i as int);
        let ghost prev0 = prev;
        let x = s[i];
        let p = find_pos(&table, x);
        proof {
            assert(rest[0] == x);
            assert(pos_in(t0, x) == p as int);
            lemma_pos_in(t0, x);
        }
        let ghost res0 = res@;
        res.push(p as u8);
        // promote: shift positions 1..=p one step right, x to index 1
        let mut j: usize = p;
        while j > 1
            invariant
                j <= p || (p <= 1 && j <= 1),
                p >= 1 ==> j >= 1,
                p == 0 ==> table@ == t0,
                p < 256,
                table@.len() == 256,
                t0.len() == 256,
                t0[p as int] == x,
                forall|k: int| 0 <= k < j ==> table@[k] == t0[k],
                j >= 1 ==> table@[j as int] == t0[p as int],
                forall|k: int| j < k <= p ==> table@[k] == t0[k - 1],
                forall|k: int| p < k < 256 ==> table@[k] == t0[k],
            decreases j,
    {
            let a = table[j - 1];
            let b = table[j];
            table[j - 1] = b;
            table[j] = a;
            j = j - 1;
        }
        if p == 1 && prev != 0 {
            let a = table[0];
            let b = table[1];
            table[0] = b;
            table[1] = a;
        }
        proof {
            assert(table@ =~= step_lag(t0, p as int, prev0));
            lemma_step_lag_table(t0, p as int, prev0);
            assert(rest.skip(1) =~= s@.skip(i + 1));
            assert(mtf_lag(rest, t0, prev0) == seq![p as u8] + mtf_lag(
                s@.skip(i + 1),
                table@,
                p as u8,
            ));
            assert(res0 + (seq![p as u8] + mtf_lag(s@.skip(i + 1), table@, p as u8)) =~= res@
                + mtf_lag(s@.skip(i + 1), table@, p as u8));
        }
        prev = p as u8;
        i = i + 1;
    }
    proof {
        assert(s@.skip(n as int) =~= Seq::<u8>::empty());
        assert(res@ =~= res@ + mtf_lag(s@.skip(n as int), table@, prev));
    }
    res
}

} // verus!
