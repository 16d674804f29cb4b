//! Unbounded natural numbers as little-endian vectors of 64-bit limbs.
//!
//! The regression analyzer compares an exact rational mean of score changes
//! against a fixed threshold. The numerator and denominator of that mean grow
//! with the product of the per-pair denominators, so no fixed-width integer
//! can hold them; these numbers can. Only the operations that comparison
//! needs are provided: building from a word, multiplying by a word, adding,
//! and ordering.

use vstd::prelude::*;

verus! {

/// One more than the largest limb value: the base of the representation.
pub const BASE: u128 = 0x1_0000_0000_0000_0000;

/// The value of a limb sequence, least-significant limb first.
pub open spec fn nat_of(s: Seq<u64>) -> nat
    decreases s.len(),
{
    if s.len() == 0 {
        0
    } else {
        (s[0] as nat) + (BASE as nat) * nat_of(s.drop_first())
    }
}

/// BASE to the power k: the weight of the limb at position k.
pub open spec fn pow_base(k: nat) -> nat
    decreases k,
{
    if k == 0 {
        1
    } else {
        (BASE as nat) * pow_base((k - 1) as nat)
    }
}

pub proof fn lemma_pow_base_pos(k: nat)
    ensures
        pow_base(k) >= 1,
    decreases k,
{
    if k > 0 {
        lemma_pow_base_pos((k - 1) as nat);
    }
}

pub proof fn lemma_nat_of_push(s: Seq<u64>, x: u64)
    ensures
        nat_of(s.push(x)) == nat_of(s) + x * pow_base(s.len()),
    decreases s.len(),
{
    if s.len() == 0 {
        assert(s.push(x).len() == 1);
        assert(s.push(x)[0] == x);
        assert(s.push(x).drop_first() =~= Seq::<u64>::empty());
        assert(nat_of(Seq::<u64>::empty()) == 0);
        assert(nat_of(s.push(x)) == x + (BASE as nat) * 0);
        assert(nat_of(s) == 0);
        assert(pow_base(s.len()) == 1);
        assert(x * pow_base(s.len()) == x);
        assert(nat_of(s.push(x)) == nat_of(s) + x * pow_base(s.len()));
    } else {
        assert(s.push(x).drop_first() =~= s.drop_first().push(x));
        lemma_nat_of_push(s.drop_first(), x);
        assert(nat_of(s.push(x)) == s[0] + (BASE as nat) * nat_of(s.drop_first().push(x)));
        assert((BASE as nat) * (nat_of(s.drop_first()) + x * pow_base(s.drop_first().len()))
            == (BASE as nat) * nat_of(s.drop_first())
                + (BASE as nat) * (x * pow_base(s.drop_first().len()))) by (nonlinear_arith);
        assert((BASE as nat) * (x * pow_base(s.drop_first().len()))
            == x * ((BASE as nat) * pow_base(s.drop_first().len()))) by (nonlinear_arith);
        assert(pow_base(s.len()) == (BASE as nat) * pow_base(s.drop_first().len()));
    }
}

pub proof fn lemma_nat_of_take_succ(s: Seq<u64>, i: int)
    requires
        0 <= i < s.len(),
    ensures
        nat_of(s.take(i + 1)) == nat_of(s.take(i)) + s[i] * pow_base(i as nat),
{
    assert(s.take(i + 1) =~= s.take(i).push(s[i]));
    lemma_nat_of_push(s.take(i), s[i]);
}

pub proof fn lemma_nat_of_bound(s: Seq<u64>)
    ensures
        nat_of(s) < pow_base(s.len()),
    decreases s.len(),
{
    if s.len() == 0 {
    } else {
        lemma_nat_of_bound(s.drop_first());
        let r = nat_of(s.drop_first());
        let p = pow_base(s.drop_first().len());
        assert(r + 1 <= p);
        assert((BASE as nat) * r + (BASE as nat) <= (BASE as nat) * p) by (nonlinear_arith)
            requires
                r + 1 <= p,
        ;
        assert(s[0] < (BASE as nat));
        assert(pow_base(s.len()) == (BASE as nat) * p);
    }
}

/// Limbs at positions k and above are all zero, so they carry no value.
pub proof fn lemma_nat_of_zero_suffix(s: Seq<u64>, k: int)
    requires
        0 <= k <= s.len(),
        forall|j: int| k <= j < s.len() ==> s[j] == 0,
    ensures
        nat_of(s.take(k)) == nat_of(s),
    decreases s.len() - k,
{
    if k == s.len() {
        assert(s.take(k) =~= s);
    } else {
        lemma_nat_of_zero_suffix(s, k + 1);
        lemma_nat_of_take_succ(s, k);
    }
}

/// Two sequences of one length that agree strictly above position i, where
/// the first is smaller: the values are ordered strictly.
pub proof fn lemma_nat_of_lt(a: Seq<u64>, b: Seq<u64>, i: int)
    requires
        a.len() == b.len(),
        0 <= i < a.len(),
        a[i] < b[i],
        forall|j: int| i < j < a.len() ==> a[j] == b[j],
    ensures
        nat_of(a) < nat_of(b),
    decreases a.len(),
{
    let n = a.len() as int;
    if i == n - 1 {
        lemma_nat_of_take_succ(a, n - 1);
        lemma_nat_of_take_succ(b, n - 1);
        assert(a.take(n) =~= a);
        assert(b.take(n) =~= b);
        lemma_nat_of_bound(a.take(n - 1));
        let p = pow_base((n - 1) as nat);
        assert(a[n - 1] + 1 <= b[n - 1]);
        assert((a[n - 1] as nat) * p + p <= (b[n - 1] as nat) * p) by (nonlinear_arith)
            requires
                a[n - 1] + 1 <= b[n - 1],
                p >= 0,
        ;
        assert(nat_of(b.take(n - 1)) >= 0);
    } else {
        lemma_nat_of_lt(a.take(n - 1), b.take(n - 1), i);
        lemma_nat_of_take_succ(a, n - 1);
        lemma_nat_of_take_succ(b, n - 1);
        assert(a.take(n) =~= a);
        assert(b.take(n) =~= b);
        assert(a[n - 1] == b[n - 1]);
    }
}

proof fn lemma_mul_words_bounded(x: u128, y: u128) by (nonlinear_arith)
    requires
        x < BASE,
        y < BASE,
    ensures
        x * y <= (BASE - 1) * (BASE - 1),
{
}

/// An unbounded natural number.
pub struct BigNat {
    limbs: Vec<u64>,
}

impl BigNat {
    /// The mathematical value this number holds.
    pub closed spec fn val(&self) -> nat {
        nat_of(self.limbs@)
    }

    /// The number holding a single machine word.
    pub fn from_u64(x: u64) -> (r: BigNat)
        ensures
            r.val() == x,
    {
        let limbs: Vec<u64> = vec![x];
        proof {
            assert(limbs@.drop_first() =~= Seq::<u64>::empty());
            assert(nat_of(Seq::<u64>::empty()) == 0);
        }
        BigNat { limbs }
    }

    /// A copy holding the same value.
    pub fn duplicate(&self) -> (r: BigNat)
        ensures
            r.val() == self.val(),
    {
        let mut limbs: Vec<u64> = Vec::new();
        let n = self.limbs.len();
        let mut i: usize = 0;
        while i < n
            invariant
                i <= n,
                n == self.limbs@.len(),
                limbs@ =~= self.limbs@.take(i as int),
            decreases n - i,
        {
            limbs.push(self.limbs[i]);
            i += 1;
        }
        proof {
            assert(limbs@ =~= self.limbs@);
        }
        BigNat { limbs }
    }

    /// Multiply in place by a machine word.
    pub fn mul_word(&mut self, m: u64)
        ensures
            final(self).val() == old(self).val() * m,
    {
        if m == 0 {
            self.limbs = Vec::new();
            proof {
                let v = old(self).val();
                assert(v * 0 == 0) by (nonlinear_arith);
            }
            return;
        }
        let n = self.limbs.len();
        let mut out: Vec<u64> = Vec::new();
        let mut carry: u64 = 0;
        let mut i: usize = 0;
        proof {
            assert(self.limbs@.take(0) =~= Seq::<u64>::empty());
            assert(nat_of(Seq::<u64>::empty()) == 0);
            assert(0 * (m as nat) == 0) by (nonlinear_arith);
        }
        while i < n
            invariant
                i <= n,
                n == self.limbs@.len(),
                out@.len() == i,
                nat_of(out@) + carry * pow_base(i as nat)
                    == nat_of(self.limbs@.take(i as int)) * m,
            decreases n - i,
        {
            let limb = self.limbs[i];
            proof {
                lemma_mul_words_bounded(limb as u128, m as u128);
            }
            let t: u128 = (limb as u128) * (m as u128) + (carry as u128);
            let lo: u64 = (t % BASE) as u64;
            let hi: u64 = (t / BASE) as u64;
            proof {
                assert(t == lo + (hi as u128) * BASE) by (nonlinear_arith)
                    requires
                        lo == t % BASE,
                        hi == t / BASE,
                        BASE > 0,
                        t <= (BASE - 1) * (BASE - 1) + (BASE - 1),
                ;
                lemma_nat_of_push(out@, lo);
                lemma_nat_of_take_succ(self.limbs@, i as int);
                let p = pow_base(i as nat);
                let limbv = limb as nat;
                let mv = m as nat;
                let tv = t as nat;
                let lov = lo as nat;
                let hiv = hi as nat;
                let basev = BASE as nat;
                let prev = nat_of(out@);
                let prevtake = nat_of(self.limbs@.take(i as int));
                assert(prev + (carry as nat) * p == prevtake * mv);
                assert(tv == limbv * mv + carry);
                assert(tv == lov + hiv * basev);
                // the new partial value plus the new carry weight equals the
                // product of the longer prefix
                assert(prev + lov * p + hiv * (basev * p) == (prevtake + limbv * p) * mv)
                    by (nonlinear_arith)
                    requires
                        prev + (carry as nat) * p == prevtake * mv,
                        lov + hiv * basev == limbv * mv + carry,
                ;
                assert(pow_base((i + 1) as nat) == basev * p);
                assert((prevtake + limbv * p) * mv == nat_of(self.limbs@.take(i as int + 1)) * mv);
            }
            out.push(lo);
            carry = hi;
            i += 1;
        }
        proof {
            assert(self.limbs@.take(n as int) =~= self.limbs@);
        }
        if carry > 0 {
            proof {
                lemma_nat_of_push(out@, carry);
            }
            out.push(carry);
        }
        self.limbs = out;
    }

    /// Add another number in place.
    pub fn add_nat(&mut self, other: &BigNat)
        ensures
            final(self).val() == old(self).val() + other.val(),
    {
        let an = self.limbs.len();
        let bn = other.limbs.len();
        let n = if an < bn { bn } else { an };
        let mut out: Vec<u64> = Vec::new();
        let mut carry: u64 = 0;
        let mut i: usize = 0;
        proof {
            assert(self.limbs@.take(0) =~= Seq::<u64>::empty());
            assert(other.limbs@.take(0) =~= Seq::<u64>::empty());
            assert(nat_of(Seq::<u64>::empty()) == 0);
        }
        while i < n
            invariant
                i <= n,
                an == self.limbs@.len(),
                bn == other.limbs@.len(),
                n == if an < bn { bn } else { an },
                carry <= 1,
                out@.len() == i,
                nat_of(out@) + carry * pow_base(i as nat)
                    == nat_of(self.limbs@.take(if i <= an { i as int } else { an as int }))
                        + nat_of(other.limbs@.take(if i <= bn { i as int } else { bn as int })),
            decreases n - i,
        {
            let av: u64 = if i < an { self.limbs[i] } else { 0 };
            let bv: u64 = if i < bn { other.limbs[i] } else { 0 };
            let t: u128 = (av as u128) + (bv as u128) + (carry as u128);
            let lo: u64 = (t % BASE) as u64;
            let hi: u64 = (t / BASE) as u64;
            proof {
                assert(t == lo + (hi as u128) * BASE) by (nonlinear_arith)
                    requires
                        lo == t % BASE,
                        hi == t / BASE,
                        BASE > 0,
                        t < 2 * BASE,
                ;
                assert(hi <= 1);
                lemma_nat_of_push(out@, lo);
                let p = pow_base(i as nat);
                let basev = BASE as nat;
                let prev = nat_of(out@);
                let pa = nat_of(self.limbs@.take(if i <= an { i as int } else { an as int }));
                let pb = nat_of(other.limbs@.take(if i <= bn { i as int } else { bn as int }));
                let pa2 = nat_of(
                    self.limbs@.take(if i + 1 <= an { i as int + 1 } else { an as int }),
                );
                let pb2 = nat_of(
                    other.limbs@.take(if i + 1 <= bn { i as int + 1 } else { bn as int }),
                );
                if i < an {
                    lemma_nat_of_take_succ(self.limbs@, i as int);
                    assert(pa2 == pa + av * p);
                } else {
                    assert(pa2 == pa + av * p);
                }
                if i < bn {
                    lemma_nat_of_take_succ(other.limbs@, i as int);
                    assert(pb2 == pb + bv * p);
                } else {
                    assert(pb2 == pb + bv * p);
                }
                assert(prev + (lo as nat) * p + (hi as nat) * (basev * p) == pa2 + pb2)
                    by (nonlinear_arith)
                    requires
                        prev + (carry as nat) * p == pa + pb,
                        (lo as nat) + (hi as nat) * basev == (av as nat) + bv + carry,
                        pa2 == pa + (av as nat) * p,
                        pb2 == pb + (bv as nat) * p,
                ;
                assert(pow_base((i + 1) as nat) == basev * p);
            }
            out.push(lo);
            carry = hi;
            i += 1;
        }
        proof {
            assert(self.limbs@.take(an as int) =~= self.limbs@);
            assert(other.limbs@.take(bn as int) =~= other.limbs@);
        }
        if carry > 0 {
            proof {
                lemma_nat_of_push(out@, carry);
            }
            out.push(carry);
        }
        self.limbs = out;
    }

    /// The position just above the most significant nonzero limb.
    fn top_len(&self) -> (k: usize)
        ensures
            k <= self.limbs@.len(),
            forall|j: int| k <= j < self.limbs@.len() ==> self.limbs@[j] == 0,
            k > 0 ==> self.limbs@[k - 1] != 0,
            nat_of(self.limbs@.take(k as int)) == self.val(),
    {
        let mut k = self.limbs.len();
        while k > 0 && self.limbs[k - 1] == 0
            invariant
                k <= self.limbs@.len(),
                forall|j: int| k <= j < self.limbs@.len() ==> self.limbs@[j] == 0,
            decreases k,
        {
            k -= 1;
        }
        proof {
            lemma_nat_of_zero_suffix(self.limbs@, k as int);
        }
        k
    }

    /// Whether this number is at most the other.
    pub fn le(&self, other: &BigNat) -> (r: bool)
        ensures
            r == (self.val() <= other.val()),
    {
        let ka = self.top_len();
        let kb = other.top_len();
        let ghost ta = self.limbs@.take(ka as int);
        let ghost tb = other.limbs@.take(kb as int);
        if ka != kb {
            proof {
                if ka < kb {
                    lemma_nat_of_bound(ta);
                    lemma_nat_of_take_succ(other.limbs@, kb as int - 1);
                    assert(other.limbs@.take(kb as int).take(kb as int - 1)
                        =~= other.limbs@.take(kb as int - 1));
                    let p = pow_base((kb - 1) as nat);
                    assert((other.limbs@[kb as int - 1] as nat) * p >= 1 * p) by (nonlinear_arith)
                        requires
                            other.limbs@[kb as int - 1] >= 1,
                            p >= 0,
                    ;
                    lemma_pow_base_pos((kb - 1) as nat);
                    // the value of the shorter prefix is below the weight of
                    // the longer prefix's top limb
                    lemma_pow_le(ka as nat, (kb - 1) as nat);
                } else {
                    lemma_nat_of_bound(tb);
                    lemma_nat_of_take_succ(self.limbs@, ka as int - 1);
                    assert(self.limbs@.take(ka as int).take(ka as int - 1)
                        =~= self.limbs@.take(ka as int - 1));
                    let p = pow_base((ka - 1) as nat);
                    assert((self.limbs@[ka as int - 1] as nat) * p >= 1 * p) by (nonlinear_arith)
                        requires
                            self.limbs@[ka as int - 1] >= 1,
                            p >= 0,
                    ;
                    lemma_pow_base_pos((ka - 1) as nat);
                    lemma_pow_le(kb as nat, (ka - 1) as nat);
                }
            }
            return ka < kb;
        }
        let mut i = ka;
        while i > 0
            invariant
                i <= ka,
                ka == kb,
                ka <= self.limbs@.len(),
                kb <= other.limbs@.len(),
                ta == self.limbs@.take(ka as int),
                tb == other.limbs@.take(kb as int),
                nat_of(ta) == self.val(),
                nat_of(tb) == other.val(),
                forall|j: int| i <= j < ka ==> self.limbs@[j] == other.limbs@[j],
            decreases i,
        {
            let av = self.limbs[i - 1];
            let bv = other.limbs[i - 1];
            if av < bv {
                proof {
                    lemma_nat_of_lt(ta, tb, i as int - 1);
                }
                return true;
            }
            if av > bv {
                proof {
                    lemma_nat_of_lt(tb, ta, i as int - 1);
                }
                return false;
            }
            i -= 1;
        }
        proof {
            assert(ta =~= tb);
        }
        true
    }
}

/// A power with a smaller exponent is no larger.
pub proof fn lemma_pow_le(j: nat, k: nat)
    requires
        j <= k,
    ensures
        pow_base(j) <= pow_base(k),
    decreases k,
{
    if j < k {
        lemma_pow_le(j, (k - 1) as nat);
        let p = pow_base((k - 1) as nat);
        assert(1 * p <= (BASE as nat) * p) by (nonlinear_arith)
            requires
                p >= 0,
        ;
    }
}

} // verus!
