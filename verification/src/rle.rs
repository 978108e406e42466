use vstd::prelude::*;

verus! {

/// Number of zero codes at the front of `s`.
pub open spec fn leading_zeros(s: Seq<u8>) -> int
    decreases s.len(),
{
    if s.len() == 0 || s[0] != 0 {
        0
    } else {
        1 + leading_zeros(s.skip(1))
    }
}

pub proof fn lemma_leading_zeros(s: Seq<u8>)
    ensures
        0 <= leading_zeros(s) <= s.len(),
    decreases s.len(),
{
    if s.len() > 0 && s[0] == 0 {
        lemma_leading_zeros(s.skip(1));
    }
}

/// No run of zero codes in `s` is longer than the 16-bit length field
/// can carry.
pub open spec fn runs_bounded(s: Seq<u8>) -> bool {
    forall|i: int| 0 <= i <= s.len() ==> #[trigger] leading_zeros(s.skip(i)) <= 65535
}

/// The compaction of `s` with `cnt` zero codes already pending: a pending
/// run is flushed as the pair `(0, run - 1)` before a nonzero code and at
/// the end of the input.
pub open spec fn rle_from(s: Seq<u8>, cnt: int) -> Seq<u16>
    decreases s.len(),
{
    if s.len() == 0 {
        if cnt != 0 {
            seq![0u16, (cnt - 1) as u16]
        } else {
            Seq::empty()
        }
    } else if s[0] != 0 {
        (if cnt != 0 {
            seq![0u16, (cnt - 1) as u16]
        } else {
            Seq::empty()
        }) + seq![s[0] as u16] + rle_from(s.skip(1), 0)
    } else {
        rle_from(s.skip(1), cnt + 1)
    }
}

/// The zero-run-length compaction of `s`.
pub open spec fn rle(s: Seq<u8>) -> Seq<u16> {
    rle_from(s, 0)
}

/// Expands every `(0, k)` pair back into `k + 1` zero codes and narrows
/// other codes back to bytes.
pub open spec fn rle_expand(c: Seq<u16>) -> Seq<u8>
    decreases c.len(),
{
    if c.len() == 0 {
        Seq::empty()
    } else if c[0] == 0 {
        if c.len() == 1 {
            Seq::empty()
        } else {
            Seq::new((c[1] + 1) as nat, |i: int| 0u8) + rle_expand(c.skip(2))
        }
    } else {
        seq![c[0] as u8] + rle_expand(c.skip(1))
    }
}

proof fn lemma_rle_round_trip_from(s: Seq<u8>, cnt: int)
    requires
        0 <= cnt,
        runs_bounded(s),
        cnt + leading_zeros(s) <= 65535,
    ensures
        rle_expand(rle_from(s, cnt)) == Seq::new(cnt as nat, |i: int| 0u8) + s,
    decreases s.len(),
{
    let zeros = Seq::new(cnt as nat, |i: int| 0u8);
    if s.len() == 0 {
        if cnt != 0 {
            let c = seq![0u16, (cnt - 1) as u16];
            assert(c.skip(2) =~= Seq::<u16>::empty());
            assert(c[0] == 0 && c.len() == 2);
            assert(c[1] == (cnt - 1) as u16);
            assert((c[1] + 1) as nat == cnt as nat);
            assert(rle_expand(c.skip(2)) =~= Seq::<u8>::empty());
            assert(rle_expand(c) == Seq::new((c[1] + 1) as nat, |i: int| 0u8) + rle_expand(
                c.skip(2),
            ));
            assert(rle_expand(c) =~= zeros + s);
        } else {
            assert(rle_expand(rle_from(s, cnt)) =~= zeros + s);
        }
    } else {
        assert(s.skip(1).skip(0) =~= s.skip(1));
        assert forall|i: int| 0 <= i <= s.skip(1).len() implies #[trigger] leading_zeros(
            s.skip(1).skip(i),
        ) <= 65535 by {
            assert(s.skip(1).skip(i) =~= s.skip(1 + i));
            assert(leading_zeros(s.skip(1 + i)) <= 65535);
        }
        if s[0] != 0 {
            lemma_leading_zeros(s.skip(1));
            lemma_rle_round_trip_from(s.skip(1), 0);
            let tail = rle_from(s.skip(1), 0);
            let flush: Seq<u16> = if cnt != 0 {
                seq![0u16, (cnt - 1) as u16]
            } else {
                Seq::empty()
            };
            let c = flush + seq![s[0] as u16] + tail;
            assert(rle_from(s, cnt) == c);
            if cnt != 0 {
                assert(c[0] == 0);
                assert(c.len() >= 2);
                assert(c[1] == (cnt - 1) as u16);
                assert(c.skip(2) =~= seq![s[0] as u16] + tail);
                let c2 = seq![s[0] as u16] + tail;
                assert(c2[0] == s[0] as u16);
                assert(c2[0] != 0);
                assert(c2.skip(1) =~= tail);
                assert(rle_expand(c2) == seq![c2[0] as u8] + rle_expand(tail));
                assert(rle_expand(c) =~= zeros + s) by {
                    assert(rle_expand(tail) == Seq::new(0, |i: int| 0u8) + s.skip(1));
                    assert(rle_expand(tail) =~= s.skip(1));
                }
            } else {
                assert(c[0] == s[0] as u16);
                assert(c[0] != 0);
                assert(c.skip(1) =~= tail);
                assert(rle_expand(c) == seq![c[0] as u8] + rle_expand(tail));
                assert(rle_expand(c) =~= zeros + s) by {
                    assert(rle_expand(tail) == Seq::new(0, |i: int| 0u8) + s.skip(1));
                    assert(rle_expand(tail) =~= s.skip(1));
                }
            }
        } else {
            assert(leading_zeros(s) == 1 + leading_zeros(s.skip(1)));
            lemma_rle_round_trip_from(s.skip(1), cnt + 1);
            assert(rle_from(s, cnt) == rle_from(s.skip(1), cnt + 1));
            assert(Seq::new((cnt + 1) as nat, |i: int| 0u8) + s.skip(1) =~= zeros + s);
        }
    }
}

/// Expanding the compaction of any stream with bounded zero runs restores
/// the stream exactly.
pub proof fn lemma_rle_round_trip(s: Seq<u8>)
    requires
        runs_bounded(s),
    ensures
        rle_expand(rle(s)) == s,
{
    assert(s.skip(0) =~= s);
    assert(leading_zeros(s) <= 65535);
    lemma_rle_round_trip_from(s, 0);
    assert(Seq::new(0, |i: int| 0u8) + s =~= s);
}

/// Compacts runs of zero codes into `(0, run - 1)` pairs, widening the
/// alphabet to 16-bit codes.
pub fn zero_run_length(bytes: &Vec<u8>) -> (r: Vec<u16>)
    requires
        runs_bounded(bytes@),
    ensures
        r@ == rle(bytes@),
{
    let n = bytes.len();
    let mut cnt: u16 = 0;
    let mut res: Vec<u16> = Vec::new();
    let mut i: usize = 0;
    proof {
        assert(bytes@.skip(0) =~= bytes@);
    }
    while i < n
        invariant
            i <= n,
            n == bytes@.len(),
            runs_bounded(bytes@),
            cnt as int + leading_zeros(bytes@.skip(i as int)) <= 65535,
            rle(bytes@) == res@ + rle_from(bytes@.skip(i as int), cnt as int),
        decreases n - i,
    {
        let ghost rest = bytes@.skip(i as int);
        let ghost cnt0 = cnt as int;
        let ghost res0 = res@;
        let x = bytes[i];
        proof {
            assert(rest[0] == x);
            assert(rest.skip(1) =~= bytes@.skip(i + 1));
            lemma_leading_zeros(bytes@.skip(i + 1));
            assert(leading_zeros(bytes@.skip(i + 1)) <= 65535);
        }
        if x != 0 {
            if cnt != 0 {
                res.push(0);
                res.push(cnt - 1);
                cnt = 0;
            }
            res.push(x as u16);
            proof {
                let flush: Seq<u16> = if cnt0 != 0 {
                    seq![0u16, (cnt0 - 1) as u16]
                } else {
                    Seq::empty()
                };
                assert(rle_from(rest, cnt0) == flush + seq![x as u16] + rle_from(
                    bytes@.skip(i + 1),
                    0,
                ));
                assert(res@ =~= res0 + (flush + seq![x as u16]));
                assert(res0 + (flush + seq![x as u16] + rle_from(bytes@.skip(i + 1), 0)) =~= res@
                    + rle_from(bytes@.skip(i + 1), 0));
            }
        } else {
            proof {
                assert(leading_zeros(rest) == 1 + leading_zeros(bytes@.skip(i + 1)));
                assert(cnt0 + 1 <= 65535);
                assert(rle_from(rest, cnt0) == rle_from(bytes@.skip(i + 1), cnt0 + 1));
            }
            cnt = cnt + 1;
        }
        i = i + 1;
    }
    let ghost cnt0 = cnt as int;
    let ghost res0 = res@;
    if cnt != 0 {
        res.push(0);
        res.push(cnt - 1);
    }
    proof {
        assert(bytes@.skip(n as int) =~= Seq::<u8>::empty());
        if cnt0 != 0 {
            assert(rle_from(bytes@.skip(n as int), cnt0) == seq![0u16, (cnt0 - 1) as u16]);
            assert(res@ =~= res0 + seq![0u16, (cnt0 - 1) as u16]);
        } else {
            assert(rle_from(bytes@.skip(n as int), cnt0) =~= Seq::<u16>::empty());
            assert(res@ =~= res0 + Seq::<u16>::empty());
        }
    }
    res
}

} // verus!
