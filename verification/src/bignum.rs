use vstd::prelude::*;
use vstd::arithmetic::power2::{pow2, lemma_pow2_adds, lemma_pow2_pos, lemma2_to64};
use vstd::arithmetic::div_mod::{lemma_fundamental_div_mod, lemma_fundamental_div_mod_converse, lemma_mod_bound};

verus! {

/// Arbitrary-precision natural number, stored as little-endian base-2^32
/// limbs with no trailing zero limb (canonical form).
///
/// Layer sizes of the hypercube grow like `w^v`, far past any machine word,
/// so the layer table and the rank/unrank bijection compute on these.
#[derive(Debug)]
pub struct BigNat {
    pub limbs: Vec<u32>,
}

/// The natural number denoted by a little-endian sequence of base-2^32 limbs.
pub open spec fn limbs_value(s: Seq<u32>) -> nat
    decreases s.len(),
{
    if s.len() == 0 {
        0
    } else {
        s[0] as nat + 0x1_0000_0000nat * limbs_value(s.skip(1))
    }
}

pub proof fn lemma_limbs_value_unfold(s: Seq<u32>)
    ensures
        limbs_value(s) == if s.len() == 0 {
            0nat
        } else {
            (s[0] as nat + 0x1_0000_0000nat * limbs_value(s.skip(1))) as nat
        },
{
}

impl View for BigNat {
    type V = nat;

    open spec fn view(&self) -> nat {
        limbs_value(self.limbs@)
    }
}

pub proof fn lemma_limbs_value_push(s: Seq<u32>, x: u32)
    ensures
        limbs_value(s.push(x)) == limbs_value(s) + x * pow2(32 * s.len()),
    decreases s.len(),
{
    lemma2_to64();
    lemma_limbs_value_unfold(s.push(x));
    lemma_limbs_value_unfold(s);
    assert(s.push(x)[0] == if s.len() == 0 {
        x
    } else {
        s[0]
    });
    if s.len() == 0 {
        assert(s.push(x).skip(1) =~= Seq::<u32>::empty());
        lemma_limbs_value_unfold(Seq::<u32>::empty());
        assert(limbs_value(s.push(x)) == x + 0x1_0000_0000 * 0);
        assert(x * pow2(0) == x) by (nonlinear_arith)
            requires
                pow2(0) == 1,
        ;
    } else {
        assert(s.push(x).skip(1) =~= s.skip(1).push(x));
        lemma_limbs_value_push(s.skip(1), x);
        let p = pow2(32 * (s.len() - 1) as nat);
        lemma_pow2_adds(32, 32 * (s.len() - 1) as nat);
        assert(32 + 32 * (s.len() - 1) == 32 * s.len());
        assert(pow2(32 * s.len()) == 0x1_0000_0000 * p);
        assert(limbs_value(s.push(x)) == s[0] + 0x1_0000_0000 * (limbs_value(s.skip(1)) + x * p));
        assert(0x1_0000_0000 * (limbs_value(s.skip(1)) + x * p) == 0x1_0000_0000 * limbs_value(
            s.skip(1),
        ) + x * (0x1_0000_0000 * p)) by (nonlinear_arith);
    }
}

pub proof fn lemma_limbs_value_take_succ(s: Seq<u32>, i: int)
    requires
        0 <= i < s.len(),
    ensures
        limbs_value(s.take(i + 1)) == limbs_value(s.take(i)) + s[i] * pow2(32 * i as nat),
{
    assert(s.take(i + 1) =~= s.take(i).push(s[i]));
    lemma_limbs_value_push(s.take(i), s[i]);
}

pub proof fn lemma_limbs_value_bound(s: Seq<u32>)
    ensures
        limbs_value(s) < pow2(32 * s.len()),
    decreases s.len(),
{
    lemma2_to64();
    lemma_limbs_value_unfold(s);
    if s.len() == 0 {
        lemma_pow2_pos(0);
    } else {
        lemma_limbs_value_bound(s.skip(1));
        let p = pow2(32 * (s.len() - 1) as nat);
        lemma_pow2_adds(32, 32 * (s.len() - 1) as nat);
        assert(32 + 32 * (s.len() - 1) == 32 * s.len());
        assert(s[0] + 0x1_0000_0000 * limbs_value(s.skip(1)) < 0x1_0000_0000 * p) by {
            assert(limbs_value(s.skip(1)) + 1 <= p);
            assert(0x1_0000_0000 * (limbs_value(s.skip(1)) + 1) <= 0x1_0000_0000 * p)
                by (nonlinear_arith)
                requires
                    limbs_value(s.skip(1)) + 1 <= p,
            ;
            assert(0x1_0000_0000 * (limbs_value(s.skip(1)) + 1) == 0x1_0000_0000 * limbs_value(
                s.skip(1),
            ) + 0x1_0000_0000) by (nonlinear_arith);
        }
    }
}

pub proof fn lemma_limbs_value_split(s: Seq<u32>, i: int)
    requires
        0 <= i <= s.len(),
    ensures
        limbs_value(s) == limbs_value(s.take(i)) + pow2(32 * i as nat) * limbs_value(s.skip(i)),
    decreases i,
{
    lemma2_to64();
    if i == 0 {
        assert(s.take(0) =~= Seq::<u32>::empty());
        assert(s.skip(0) =~= s);
        lemma_limbs_value_unfold(Seq::<u32>::empty());
        lemma_pow2_pos(0);
        assert(pow2(0) * limbs_value(s) == limbs_value(s)) by (nonlinear_arith)
            requires
                pow2(0) == 1,
        ;
    } else {
        lemma_limbs_value_split(s, i - 1);
        lemma_limbs_value_take_succ(s, i - 1);
        // limbs_value(s.skip(i - 1)) == s[i - 1] + 2^32 * limbs_value(s.skip(i))
        assert(s.skip(i - 1).skip(1) =~= s.skip(i));
        assert(s.skip(i - 1)[0] == s[i - 1]);
        lemma_limbs_value_unfold(s.skip(i - 1));
        let p = pow2(32 * ((i - 1) as nat));
        let r = limbs_value(s.skip(i));
        lemma_pow2_adds(32 * ((i - 1) as nat), 32);
        assert(32 * ((i - 1) as nat) + 32 == 32 * (i as nat));
        assert(pow2(32 * (i as nat)) == p * 0x1_0000_0000);
        assert(limbs_value(s.skip(i - 1)) == s[i - 1] + 0x1_0000_0000 * r);
        assert(limbs_value(s) == limbs_value(s.take(i - 1)) + p * (s[i - 1] + 0x1_0000_0000 * r));
        assert(p * (s[i - 1] + 0x1_0000_0000 * r) == s[i - 1] * p + (p * 0x1_0000_0000) * r)
            by (nonlinear_arith);
        assert(limbs_value(s.take(i)) == limbs_value(s.take(i - 1)) + s[i - 1] * p);
    }
}

/// A canonical limb sequence with `n` limbs denotes at least `2^(32(n-1))`.
pub proof fn lemma_limbs_value_lower(s: Seq<u32>)
    requires
        s.len() > 0,
        s.last() != 0,
    ensures
        limbs_value(s) >= pow2(32 * (s.len() - 1) as nat),
{
    let i = s.len() - 1;
    lemma_limbs_value_split(s, i);
    assert(s.skip(i)[0] == s[i]);
    assert(s.skip(i).skip(1) =~= Seq::<u32>::empty());
    lemma_limbs_value_unfold(s.skip(i));
    lemma_limbs_value_unfold(Seq::<u32>::empty());
    assert(limbs_value(s.skip(i)) == s[i] + 0x1_0000_0000 * 0);
    let p = pow2(32 * (i as nat));
    lemma_pow2_pos(32 * (i as nat));
    assert(p * limbs_value(s.skip(i)) >= p * 1) by (nonlinear_arith)
        requires
            limbs_value(s.skip(i)) >= 1,
            p > 0,
    ;
}

/// If two equally long limb sequences agree above position `i` and differ
/// at `i`, the one with the smaller limb denotes the smaller number.
pub proof fn lemma_limbs_value_msd(s: Seq<u32>, t: Seq<u32>, i: int)
    requires
        s.len() == t.len(),
        0 <= i < s.len(),
        s[i] < t[i],
        s.skip(i + 1) == t.skip(i + 1),
    ensures
        limbs_value(s) < limbs_value(t),
{
    lemma_limbs_value_split(s, i);
    lemma_limbs_value_split(t, i);
    lemma_limbs_value_unfold(s.skip(i));
    lemma_limbs_value_unfold(t.skip(i));
    assert(s.skip(i)[0] == s[i]);
    assert(s.skip(i).skip(1) =~= s.skip(i + 1));
    assert(t.skip(i)[0] == t[i]);
    assert(t.skip(i).skip(1) =~= t.skip(i + 1));
    let r = limbs_value(s.skip(i + 1));
    assert(limbs_value(s.skip(i)) == s[i] + 0x1_0000_0000 * r);
    assert(limbs_value(t.skip(i)) == t[i] + 0x1_0000_0000 * r);
    let p = pow2(32 * i as nat);
    lemma_pow2_pos(32 * i as nat);
    lemma_limbs_value_bound(s.take(i));
    assert(s.take(i).len() == i);
    assert(limbs_value(s) < p + p * limbs_value(s.skip(i)));
    assert(p + p * (s[i] + 0x1_0000_0000 * r) <= p * (t[i] + 0x1_0000_0000 * r))
        by (nonlinear_arith)
        requires
            p > 0,
            s[i] + 1 <= t[i],
    ;
    assert(p * limbs_value(t.skip(i)) <= limbs_value(t));
}

impl BigNat {
    /// Canonical form: no trailing zero limb.
    pub open spec fn wf(&self) -> bool {
        self.limbs@.len() == 0 || self.limbs@.last() != 0
    }

    /// Drop trailing zero limbs.
    fn trim(&mut self)
        ensures
            final(self)@ == old(self)@,
            final(self).wf(),
    {
        while self.limbs.len() > 0 && self.limbs[self.limbs.len() - 1] == 0
            invariant
                limbs_value(self.limbs@) == old(self)@,
            decreases self.limbs@.len(),
        {
            let ghost pre = self.limbs@;
            self.limbs.pop();
            proof {
                assert(pre =~= self.limbs@.push(pre.last()));
                lemma_limbs_value_push(self.limbs@, pre.last());
            }
        }
    }

    pub fn zero() -> (r: BigNat)
        ensures
            r@ == 0,
            r.wf(),
    {
        BigNat { limbs: Vec::new() }
    }

    pub fn from_u64(x: u64) -> (r: BigNat)
        ensures
            r@ == x,
            r.wf(),
    {
        let lo: u32 = (x % 0x1_0000_0000) as u32;
        let hi: u32 = (x / 0x1_0000_0000) as u32;
        let mut limbs: Vec<u32> = Vec::new();
        limbs.push(lo);
        limbs.push(hi);
        proof {
            lemma2_to64();
            lemma_fundamental_div_mod(x as int, 0x1_0000_0000);
            lemma_mod_bound(x as int, 0x1_0000_0000);
            assert(x / 0x1_0000_0000 < 0x1_0000_0000) by (nonlinear_arith)
                requires
                    x <= 0xFFFF_FFFF_FFFF_FFFFu64,
                    x == 0x1_0000_0000 * (x / 0x1_0000_0000) + x % 0x1_0000_0000,
                    x % 0x1_0000_0000 >= 0,
            ;
            assert(limbs@ =~= Seq::<u32>::empty().push(lo).push(hi));
            lemma_limbs_value_unfold(Seq::<u32>::empty());
            lemma_limbs_value_push(Seq::<u32>::empty(), lo);
            lemma_limbs_value_push(Seq::<u32>::empty().push(lo), hi);
            assert(lo * pow2(0) == lo) by (nonlinear_arith)
                requires
                    pow2(0) == 1,
            ;
            assert(limbs_value(Seq::<u32>::empty().push(lo)) == lo);
            assert(limbs_value(limbs@) == lo + hi * pow2(32));
        }
        let mut r = BigNat { limbs };
        r.trim();
        r
    }

    /// The value as a `u64`; callers must know the number is small enough.
    pub fn to_u64(&self) -> (r: u64)
        requires
            self.wf(),
            self@ < 0x1_0000_0000_0000_0000,
        ensures
            r == self@,
    {
        proof {
            lemma2_to64();
            if self.limbs@.len() >= 3 {
                lemma_limbs_value_lower(self.limbs@);
                lemma_pow2_adds(64, 32 * (self.limbs@.len() - 3) as nat);
                lemma_pow2_pos(32 * (self.limbs@.len() - 3) as nat);
                assert(pow2(32 * (self.limbs@.len() - 1) as nat) >= pow2(64)) by (nonlinear_arith)
                    requires
                        pow2(32 * (self.limbs@.len() - 1) as nat) == pow2(64) * pow2(
                            32 * (self.limbs@.len() - 3) as nat,
                        ),
                        pow2(32 * (self.limbs@.len() - 3) as nat) >= 1,
                        pow2(64) > 0,
                ;
            }
        }
        if self.limbs.len() == 0 {
            proof {
                lemma_limbs_value_unfold(self.limbs@);
            }
            0
        } else if self.limbs.len() == 1 {
            proof {
                assert(self.limbs@.skip(1) =~= Seq::<u32>::empty());
                lemma_limbs_value_unfold(self.limbs@);
                lemma_limbs_value_unfold(Seq::<u32>::empty());
            }
            self.limbs[0] as u64
        } else {
            proof {
                assert(self.limbs@.skip(1).skip(1) =~= Seq::<u32>::empty());
                assert(self.limbs@.skip(1)[0] == self.limbs@[1]);
                lemma_limbs_value_unfold(self.limbs@);
                lemma_limbs_value_unfold(self.limbs@.skip(1));
                lemma_limbs_value_unfold(Seq::<u32>::empty());
            }
            self.limbs[0] as u64 + (self.limbs[1] as u64) * 0x1_0000_0000
        }
    }

    pub fn is_zero(&self) -> (r: bool)
        requires
            self.wf(),
        ensures
            r == (self@ == 0),
    {
        proof {
            lemma_limbs_value_unfold(self.limbs@);
            if self.limbs@.len() > 0 {
                lemma_limbs_value_lower(self.limbs@);
                lemma_pow2_pos(32 * (self.limbs@.len() - 1) as nat);
            }
        }
        self.limbs.len() == 0
    }

    /// Copy of the limb vector (little-endian, canonical).
    pub fn to_limbs(&self) -> (r: Vec<u32>)
        ensures
            r@ == self.limbs@,
    {
        let mut out: Vec<u32> = Vec::new();
        let mut i: usize = 0;
        while i < self.limbs.len()
            invariant
                0 <= i <= self.limbs@.len(),
                out@ == self.limbs@.take(i as int),
            decreases self.limbs@.len() - i,
        {
            out.push(self.limbs[i]);
            proof {
                assert(self.limbs@.take(i + 1) =~= self.limbs@.take(i as int).push(
                    self.limbs@[i as int],
                ));
            }
            i += 1;
        }
        proof {
            assert(self.limbs@.take(self.limbs@.len() as int) =~= self.limbs@);
        }
        out
    }

    pub fn duplicate(&self) -> (r: BigNat)
        ensures
            r@ == self@,
            r.limbs@ == self.limbs@,
    {
        BigNat { limbs: self.to_limbs() }
    }

    /// Strict comparison by value.
    pub fn lt(&self, other: &BigNat) -> (r: bool)
        requires
            self.wf(),
            other.wf(),
        ensures
            r == (self@ < other@),
    {
        if self.limbs.len() != other.limbs.len() {
            proof {
                let (a, b) = if self.limbs@.len() < other.limbs@.len() {
                    (self.limbs@, other.limbs@)
                } else {
                    (other.limbs@, self.limbs@)
                };
                lemma_limbs_value_bound(a);
                lemma_limbs_value_lower(b);
                if 32 * a.len() < 32 * (b.len() - 1) {
                    vstd::arithmetic::power2::lemma_pow2_strictly_increases(
                        32 * a.len(),
                        32 * (b.len() - 1) as nat,
                    );
                }
            }
            return self.limbs.len() < other.limbs.len();
        }
        let n = self.limbs.len();
        let mut i: usize = n;
        while i > 0
            invariant
                0 <= i <= n,
                n == self.limbs@.len() == other.limbs@.len(),
                forall|k: int| i <= k < n ==> self.limbs@[k] == other.limbs@[k],
            decreases i,
        {
            i -= 1;
            proof {
                assert(self.limbs@.skip(i + 1) =~= other.limbs@.skip(i + 1));
            }
            if self.limbs[i] < other.limbs[i] {
                proof {
                    lemma_limbs_value_msd(self.limbs@, other.limbs@, i as int);
                }
                return true;
            }
            if self.limbs[i] > other.limbs[i] {
                proof {
                    lemma_limbs_value_msd(other.limbs@, self.limbs@, i as int);
                }
                return false;
            }
        }
        proof {
            assert(self.limbs@ =~= other.limbs@);
        }
        false
    }

    /// In-place addition.
    pub fn add_assign(&mut self, other: &BigNat)
        ensures
            final(self)@ == old(self)@ + other@,
            final(self).wf(),
    {
        let n = if self.limbs.len() > other.limbs.len() {
            self.limbs.len()
        } else {
            other.limbs.len()
        };
        // pad self with zero limbs up to n
        while self.limbs.len() < n
            invariant
                limbs_value(self.limbs@) == old(self)@,
                self.limbs@.len() <= n,
            decreases n - self.limbs@.len(),
        {
            proof {
                lemma_limbs_value_push(self.limbs@, 0u32);
            }
            self.limbs.push(0);
        }
        let ghost pa = self.limbs@;
        let ghost pb = other.limbs@ + Seq::<u32>::new((n - other.limbs@.len()) as nat, |k: int| 0u32);
        proof {
            lemma_limbs_zero_pad(other.limbs@, (n - other.limbs@.len()) as nat);
        }
        let mut carry: u32 = 0;
        let mut i: usize = 0;
        proof {
            lemma2_to64();
            assert(self.limbs@.take(0) =~= Seq::<u32>::empty());
            assert(pa.take(0) =~= Seq::<u32>::empty());
            assert(pb.take(0) =~= Seq::<u32>::empty());
            lemma_limbs_value_unfold(Seq::<u32>::empty());
            lemma_pow2_pos(0);
        }
        while i < n
            invariant
                0 <= i <= n,
                n == self.limbs@.len() == pa.len() == pb.len(),
                carry <= 1,
                forall|k: int| i <= k < n ==> self.limbs@[k] == pa[k],
                forall|k: int|
                    0 <= k < pb.len() ==> pb[k] == (if k < other.limbs@.len() {
                        other.limbs@[k]
                    } else {
                        0u32
                    }),
                limbs_value(self.limbs@.take(i as int)) + carry * pow2(32 * i as nat)
                    == limbs_value(pa.take(i as int)) + limbs_value(pb.take(i as int)),
            decreases n - i,
        {
            let b: u32 = if i < other.limbs.len() {
                other.limbs[i]
            } else {
                0
            };
            let s: u64 = self.limbs[i] as u64 + b as u64 + carry as u64;
            proof {
                lemma_fundamental_div_mod(s as int, 0x1_0000_0000);
            }
            let lo: u32 = (s % 0x1_0000_0000) as u32;
            let hi: u32 = (s / 0x1_0000_0000) as u32;
            let ghost pre = self.limbs@;
            let ghost oldcarry = carry;
            self.limbs[i] = lo;
            carry = hi;
            proof {
                lemma2_to64();
                assert(pre.take(i as int) =~= self.limbs@.take(i as int));
                lemma_limbs_value_take_succ(self.limbs@, i as int);
                lemma_limbs_value_take_succ(pa, i as int);
                lemma_limbs_value_take_succ(pb, i as int);
                lemma_pow2_adds(32, 32 * i as nat);
                assert(32 * (i + 1) == 32 + 32 * i);
                let p = pow2(32 * i as nat);
                assert(s == lo + 0x1_0000_0000 * hi);
                assert(limbs_value(self.limbs@.take(i + 1)) + hi * (0x1_0000_0000 * p)
                    == limbs_value(self.limbs@.take(i as int)) + (lo + 0x1_0000_0000 * hi) * p)
                    by (nonlinear_arith)
                    requires
                        limbs_value(self.limbs@.take(i + 1)) == limbs_value(
                            self.limbs@.take(i as int),
                        ) + lo * p,
                ;
                assert((pa[i as int] + pb[i as int] + oldcarry) * p == pa[i as int] * p
                    + pb[i as int] * p + oldcarry * p) by (nonlinear_arith);
            }
            i += 1;
        }
        proof {
            assert(self.limbs@.take(n as int) =~= self.limbs@);
            assert(pa.take(n as int) =~= pa);
            assert(pb.take(n as int) =~= pb);
        }
        if carry > 0 {
            proof {
                lemma_limbs_value_push(self.limbs@, carry);
            }
            self.limbs.push(carry);
        }
        self.trim();
    }

    /// In-place subtraction; the argument must not exceed the receiver.
    pub fn sub_assign(&mut self, other: &BigNat)
        requires
            old(self).wf(),
            other.wf(),
            other@ <= old(self)@,
        ensures
            final(self)@ == old(self)@ - other@,
            final(self).wf(),
    {
        proof {
            assert(other.limbs@.len() <= self.limbs@.len()) by {
                if other.limbs@.len() > self.limbs@.len() {
                    lemma_limbs_value_bound(self.limbs@);
                    lemma_limbs_value_lower(other.limbs@);
                    if 32 * self.limbs@.len() < 32 * (other.limbs@.len() - 1) {
                        vstd::arithmetic::power2::lemma_pow2_strictly_increases(
                            32 * self.limbs@.len(),
                            32 * (other.limbs@.len() - 1) as nat,
                        );
                    }
                }
            }
        }
        let n = self.limbs.len();
        let ghost pa = self.limbs@;
        let ghost pb = other.limbs@ + Seq::<u32>::new((n - other.limbs@.len()) as nat, |k: int| 0u32);
        proof {
            lemma_limbs_zero_pad(other.limbs@, (n - other.limbs@.len()) as nat);
        }
        let mut borrow: u32 = 0;
        let mut i: usize = 0;
        proof {
            lemma2_to64();
            assert(self.limbs@.take(0) =~= Seq::<u32>::empty());
            assert(pa.take(0) =~= Seq::<u32>::empty());
            assert(pb.take(0) =~= Seq::<u32>::empty());
            lemma_limbs_value_unfold(Seq::<u32>::empty());
            lemma_pow2_pos(0);
        }
        while i < n
            invariant
                0 <= i <= n,
                n == self.limbs@.len() == pa.len() == pb.len(),
                borrow <= 1,
                n >= other.limbs@.len(),
                forall|k: int| i <= k < n ==> self.limbs@[k] == pa[k],
                forall|k: int|
                    0 <= k < pb.len() ==> pb[k] == (if k < other.limbs@.len() {
                        other.limbs@[k]
                    } else {
                        0u32
                    }),
                limbs_value(self.limbs@.take(i as int)) == limbs_value(pa.take(i as int))
                    - limbs_value(pb.take(i as int)) + borrow * pow2(32 * i as nat),
            decreases n - i,
        {
            let b: u32 = if i < other.limbs.len() {
                other.limbs[i]
            } else {
                0
            };
            let d: u64 = 0x1_0000_0000u64 + self.limbs[i] as u64 - b as u64 - borrow as u64;
            proof {
                lemma_fundamental_div_mod(d as int, 0x1_0000_0000);
            }
            let lo: u32 = (d % 0x1_0000_0000) as u32;
            let nb: u32 = 1 - (d / 0x1_0000_0000) as u32;
            let ghost pre = self.limbs@;
            let ghost oldborrow = borrow;
            self.limbs[i] = lo;
            borrow = nb;
            proof {
                lemma2_to64();
                assert(pre.take(i as int) =~= self.limbs@.take(i as int));
                lemma_limbs_value_take_succ(self.limbs@, i as int);
                lemma_limbs_value_take_succ(pa, i as int);
                lemma_limbs_value_take_succ(pb, i as int);
                lemma_pow2_adds(32, 32 * i as nat);
                assert(32 * (i + 1) == 32 + 32 * i);
                let p = pow2(32 * i as nat) as int;
                lemma_pow2_pos(32 * i as nat);
                assert(d == lo + 0x1_0000_0000 * (d / 0x1_0000_0000));
                // lo == pa[i] - pb[i] - oldborrow + 2^32 * nb
                assert(lo == pa[i as int] - pb[i as int] - oldborrow + 0x1_0000_0000 * nb);
                assert((pa[i as int] - pb[i as int] - oldborrow + 0x1_0000_0000 * nb) * p == pa[i as int]
                    * p - pb[i as int] * p - oldborrow * p + nb * (0x1_0000_0000 * p))
                    by (nonlinear_arith);
            }
            i += 1;
        }
        proof {
            assert(pa.take(n as int) =~= pa);
            assert(pb.take(n as int) =~= pb);
            assert(self.limbs@.take(n as int) =~= self.limbs@);
            assert(borrow == 0) by {
                if borrow == 1 {
                    lemma_limbs_value_bound(self.limbs@);
                }
            }
        }
        self.trim();
    }

    /// Division with remainder by a small (machine-word) divisor.
    pub fn divmod_small(&self, div: u32) -> (r: (BigNat, u32))
        requires
            div >= 1,
        ensures
            r.0@ == self@ / div as nat,
            r.1 == self@ % div as nat,
            r.1 < div,
            r.0.wf(),
    {
        let n = self.limbs.len();
        let mut q: Vec<u32> = vec_of_zeros(n);
        let mut rem: u32 = 0;
        let mut i: usize = n;
        proof {
            assert(self.limbs@.skip(n as int) =~= Seq::<u32>::empty());
            assert(q@.skip(n as int) =~= Seq::<u32>::empty());
            lemma_limbs_value_unfold(Seq::<u32>::empty());
        }
        while i > 0
            invariant
                0 <= i <= n,
                n == self.limbs@.len() == q@.len(),
                rem < div,
                div >= 1,
                forall|k: int| 0 <= k < i ==> q@[k] == 0u32,
                limbs_value(self.limbs@.skip(i as int)) == div * limbs_value(q@.skip(i as int))
                    + rem,
            decreases i,
        {
            i -= 1;
            let cur: u64 = (rem as u64) * 0x1_0000_0000 + self.limbs[i] as u64;
            let d64: u64 = div as u64;
            let qi: u64 = cur / d64;
            let nr: u64 = cur % d64;
            proof {
                lemma2_to64();
                lemma_fundamental_div_mod(cur as int, d64 as int);
                assert(cur as int == d64 as int * ((cur as int) / (d64 as int)) + (cur as int) % (
                d64 as int));
                assert(qi == (cur as int) / (d64 as int));
                assert(cur == qi * div + nr);
                assert(nr < div);
                assert(cur < (div as u64) * 0x1_0000_0000) by (nonlinear_arith)
                    requires
                        cur == (rem as u64) * 0x1_0000_0000 + (self.limbs@[i as int] as u64),
                        rem < div,
                        (self.limbs@[i as int] as u64) < 0x1_0000_0000,
                ;
                assert(qi < 0x1_0000_0000) by (nonlinear_arith)
                    requires
                        qi * (div as u64) + nr == cur,
                        nr >= 0,
                        cur < (div as u64) * 0x1_0000_0000,
                        div >= 1,
                ;
            }
            let ghost qpre = q@;
            let ghost oldrem = rem;
            q[i] = qi as u32;
            rem = nr as u32;
            proof {
                assert(q@.skip(i + 1) =~= qpre.skip(i + 1));
                assert(q@.skip(i as int)[0] == q@[i as int]);
                assert(q@.skip(i as int).skip(1) =~= q@.skip(i + 1));
                assert(self.limbs@.skip(i as int)[0] == self.limbs@[i as int]);
                assert(self.limbs@.skip(i as int).skip(1) =~= self.limbs@.skip(i + 1));
                lemma_limbs_value_unfold(q@.skip(i as int));
                lemma_limbs_value_unfold(self.limbs@.skip(i as int));
                let qq = limbs_value(q@.skip(i + 1)) as int;
                let a0 = self.limbs@[i as int] as int;
                let dd = div as int;
                // limbs_value(self.skip(i)) == a0 + 2^32 * (dd * qq + oldrem)
                //                           == dd * (qi + 2^32 * qq) + nr
                assert(a0 + 0x1_0000_0000 * (dd * qq + oldrem) == dd * (qi + 0x1_0000_0000 * qq)
                    + nr) by (nonlinear_arith)
                    requires
                        oldrem * 0x1_0000_0000 + a0 == qi * dd + nr,
                ;
            }
        }
        proof {
            assert(self.limbs@.skip(0) =~= self.limbs@);
            assert(q@.skip(0) =~= q@);
            lemma_fundamental_div_mod_converse(
                self@ as int,
                div as int,
                limbs_value(q@.skip(0)) as int,
                rem as int,
            );
        }
        let mut qb = BigNat { limbs: q };
        qb.trim();
        (qb, rem)
    }

    /// Replace the value `x` by `x * mul + addend`.
    pub fn mul_small_add(&mut self, mul: u32, addend: u32)
        ensures
            final(self)@ == old(self)@ * mul + addend,
            final(self).wf(),
    {
        let n = self.limbs.len();
        let ghost pa = self.limbs@;
        let mut carry: u32 = addend;
        let mut i: usize = 0;
        proof {
            lemma2_to64();
            assert(self.limbs@.take(0) =~= Seq::<u32>::empty());
            assert(pa.take(0) =~= Seq::<u32>::empty());
            lemma_limbs_value_unfold(Seq::<u32>::empty());
            assert(carry * pow2(0) == carry && limbs_value(pa.take(0)) * mul == 0)
                by (nonlinear_arith)
                requires
                    pow2(0) == 1,
                    limbs_value(pa.take(0)) == 0,
            ;
        }
        while i < n
            invariant
                0 <= i <= n,
                n == self.limbs@.len() == pa.len(),
                forall|k: int| i <= k < n ==> self.limbs@[k] == pa[k],
                limbs_value(self.limbs@.take(i as int)) + carry * pow2(32 * i as nat)
                    == limbs_value(pa.take(i as int)) * mul + addend,
            decreases n - i,
        {
            proof {
                assert((self.limbs@[i as int] as u64) * (mul as u64) <= 0xFFFF_FFFFu64
                    * 0xFFFF_FFFFu64) by (nonlinear_arith)
                    requires
                        self.limbs@[i as int] <= 0xFFFF_FFFFu32,
                        mul <= 0xFFFF_FFFFu32,
                ;
            }
            let cur: u64 = (self.limbs[i] as u64) * (mul as u64) + carry as u64;
            let lo: u32 = (cur % 0x1_0000_0000) as u32;
            let hi: u32 = (cur / 0x1_0000_0000) as u32;
            let ghost pre = self.limbs@;
            let ghost oldcarry = carry;
            self.limbs[i] = lo;
            carry = hi;
            proof {
                lemma2_to64();
                assert(pre.take(i as int) =~= self.limbs@.take(i as int));
                lemma_limbs_value_take_succ(self.limbs@, i as int);
                lemma_limbs_value_take_succ(pa, i as int);
                lemma_pow2_adds(32, 32 * i as nat);
                assert(32 * (i + 1) == 32 + 32 * i);
                let p = pow2(32 * i as nat) as int;
                assert(cur == lo + 0x1_0000_0000 * hi);
                let a0 = pa[i as int] as int;
                let m = mul as int;
                // (take(i)*m + addend) - oldcarry*p + (a0*m + oldcarry)*p
                //   == take(i+1)*m + addend - hi*(2^32*p) ... shown below
                assert((limbs_value(pa.take(i as int)) * m + addend) - oldcarry * p + (a0 * m
                    + oldcarry) * p == (limbs_value(pa.take(i as int)) + a0 * p) * m + addend)
                    by (nonlinear_arith);
                assert(lo + 0x1_0000_0000 * hi == a0 * m + oldcarry);
                assert((lo + 0x1_0000_0000 * hi) * p == lo * p + hi * (0x1_0000_0000 * p))
                    by (nonlinear_arith);
            }
            i += 1;
        }
        proof {
            assert(pa.take(n as int) =~= pa);
            assert(self.limbs@.take(n as int) =~= self.limbs@);
        }
        if carry > 0 {
            proof {
                lemma_limbs_value_push(self.limbs@, carry);
            }
            self.limbs.push(carry);
        }
        self.trim();
    }
}

/// Padding a limb sequence with zero limbs does not change its value.
pub proof fn lemma_limbs_zero_pad(s: Seq<u32>, k: nat)
    ensures
        limbs_value(s + Seq::<u32>::new(k, |j: int| 0u32)) == limbs_value(s),
    decreases k,
{
    if k == 0 {
        assert(s + Seq::<u32>::new(0, |j: int| 0u32) =~= s);
    } else {
        lemma_limbs_zero_pad(s, (k - 1) as nat);
        assert(s + Seq::<u32>::new(k, |j: int| 0u32) =~= (s + Seq::<u32>::new(
            (k - 1) as nat,
            |j: int| 0u32,
        )).push(0u32));
        lemma_limbs_value_push(s + Seq::<u32>::new((k - 1) as nat, |j: int| 0u32), 0u32);
    }
}

/// A vector of `n` zero limbs.
fn vec_of_zeros(n: usize) -> (r: Vec<u32>)
    ensures
        r@.len() == n,
        forall|k: int| 0 <= k < n ==> r@[k] == 0u32,
{
    let mut r: Vec<u32> = Vec::new();
    let mut i: usize = 0;
    while i < n
        invariant
            0 <= i <= n,
            r@.len() == i,
            forall|k: int| 0 <= k < i ==> r@[k] == 0u32,
        decreases n - i,
    {
        r.push(0);
        i += 1;
    }
    r
}

impl PartialEq for BigNat {
    fn eq(&self, other: &BigNat) -> (r: bool) {
        if self.limbs.len() != other.limbs.len() {
            return false;
        }
        let mut i: usize = 0;
        while i < self.limbs.len()
            invariant
                0 <= i <= self.limbs@.len(),
                self.limbs@.len() == other.limbs@.len(),
                forall|k: int| 0 <= k < i ==> self.limbs@[k] == other.limbs@[k],
            decreases self.limbs@.len() - i,
        {
            if self.limbs[i] != other.limbs[i] {
                return false;
            }
            i += 1;
        }
        proof {
            assert(self.limbs@ =~= other.limbs@);
        }
        true
    }
}

impl vstd::std_specs::cmp::PartialEqSpecImpl for BigNat {
    open spec fn obeys_eq_spec() -> bool {
        true
    }

    open spec fn eq_spec(&self, other: &BigNat) -> bool {
        self.limbs@ == other.limbs@
    }
}

impl Eq for BigNat {

}

} // verus!
