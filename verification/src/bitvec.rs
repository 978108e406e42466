use vstd::prelude::*;

verus! {

/// Growable bit array packed into 64-bit words.
///
/// The view is the sequence of bits; `wf` ties the number of backing words
/// to the declared bit length.
pub struct Bitvec {
    data: Vec<u64>,
    len: usize,
}

impl View for Bitvec {
    type V = Seq<bool>;

    closed spec fn view(&self) -> Seq<bool> {
        Seq::new(self.len as nat, |i: int| (self.data@[i / 64] >> ((i % 64) as u64)) & 1 == 1)
    }
}

impl Bitvec {
    /// The backing words cover the declared length and no full word more.
    pub closed spec fn wf(&self) -> bool {
        self.len <= 64 * self.data@.len() && 64 * self.data@.len() < self.len + 64
    }

    /// A zero-initialized vector of `size` bits.
    pub fn new(size: usize) -> (r: Bitvec)
        requires
            size <= usize::MAX - 63,
        ensures
            r.wf(),
            r@.len() == size,
            forall|i: int| 0 <= i < size ==> r@[i] == false,
    {
        let n = (size + 63) / 64;
        let r = Bitvec { data: crate::util::fill(n, 0u64), len: size };
        proof {
            assert(64 * (((size + 63) / 64) as int) <= size + 63
                && size + 63 < 64 * (((size + 63) / 64) as int) + 64) by (nonlinear_arith);
            assert forall|i: int| 0 <= i < size implies r@[i] == false by {
                let sh = (i % 64) as u64;
                assert(i / 64 < r.data@.len() as int) by (nonlinear_arith)
                    requires
                        0 <= i < size,
                        size <= 64 * r.data@.len(),
                ;
                assert((0u64 >> sh) & 1 == 0) by (bit_vector);
            }
        }
        r
    }

    /// The bit at position `n`; positions past the declared length are out
    /// of range and excluded by the precondition.
    pub fn at(&self, n: usize) -> (r: bool)
        requires
            self.wf(),
            n < self@.len(),
        ensures
            r == self@[n as int],
    {
        proof {
            assert(n as int / 64 < self.data@.len() as int) by (nonlinear_arith)
                requires
                    (n as int) < self.len as int,
                    self.len <= 64 * self.data@.len(),
            ;
        }
        (self.data[n / 64] >> ((n % 64) as u64)) & 1 == 1
    }

    /// Toggles the bit at position `n`.
    pub fn flip(&mut self, n: usize)
        requires
            old(self).wf(),
            n < old(self)@.len(),
        ensures
            final(self).wf(),
            final(self)@ == old(self)@.update(n as int, !old(self)@[n as int]),
    {
        proof {
            assert(n as int / 64 < self.data@.len() as int) by (nonlinear_arith)
                requires
                    (n as int) < self.len as int,
                    self.len <= 64 * self.data@.len(),
            ;
        }
        let w = self.data[n / 64];
        let m = 1u64 << ((n % 64) as u64);
        self.data[n / 64] = w ^ m;
        proof {
            let nn = n as int;
            let sh = (nn % 64) as u64;
            assert forall|j: int| 0 <= j < self.len implies self@[j] == (if j == nn {
                !old(self)@[nn]
            } else {
                old(self)@[j]
            }) by {
                assert(j / 64 < self.data@.len() as int) by (nonlinear_arith)
                    requires
                        0 <= j < self.len as int,
                        self.len <= 64 * self.data@.len(),
                ;
                if j / 64 == nn / 64 {
                    let js = (j % 64) as u64;
                    vstd::arithmetic::div_mod::lemma_fundamental_div_mod(j, 64);
                    vstd::arithmetic::div_mod::lemma_fundamental_div_mod(nn, 64);
                    if j == nn {
                        assert(((w ^ (1u64 << sh)) >> sh) & 1 == 1 <==> !((w >> sh) & 1 == 1))
                            by (bit_vector)
                            requires
                                sh < 64,
                        ;
                    } else {
                        assert(js != sh);
                        assert(((w ^ (1u64 << sh)) >> js) & 1 == (w >> js) & 1) by (bit_vector)
                            requires
                                js < 64,
                                sh < 64,
                                js != sh,
                        ;
                    }
                }
            }
            assert(self@ =~= old(self)@.update(nn, !old(self)@[nn]));
        }
    }

    /// Writes `bit` at position `n`.
    pub fn set(&mut self, n: usize, bit: bool)
        requires
            old(self).wf(),
            n < old(self)@.len(),
        ensures
            final(self).wf(),
            final(self)@ == old(self)@.update(n as int, bit),
    {
        if self.at(n) != bit {
            self.flip(n);
        } else {
            proof {
                assert(self@ =~= self@.update(n as int, bit));
            }
        }
    }

    /// Appends one bit, growing the backing storage a whole word at a time.
    pub fn push(&mut self, bit: bool)
        requires
            old(self).wf(),
            old(self)@.len() < usize::MAX,
        ensures
            final(self).wf(),
            final(self)@ == old(self)@.push(bit),
    {
        let ghost oldlen = self.len as int;
        let ghost olddata = self.data@;
        if self.len % 64 == 0 {
            proof {
                vstd::arithmetic::div_mod::lemma_fundamental_div_mod(oldlen, 64);
            }
            self.data.push(0);
        }
        self.len = self.len + 1;
        proof {
            vstd::arithmetic::div_mod::lemma_fundamental_div_mod(oldlen, 64);
            // The bits below the old length read from the same words as before.
            assert forall|j: int| 0 <= j < oldlen implies self@[j] == old(self)@[j] by {
                assert(j / 64 < olddata.len() as int) by (nonlinear_arith)
                    requires
                        0 <= j < oldlen,
                        oldlen <= 64 * olddata.len(),
                ;
            }
        }
        let n = self.len - 1;
        self.set(n, bit);
        proof {
            assert(self@ =~= old(self)@.push(bit));
        }
    }
}

} // verus!
