use vstd::prelude::*;
use vstd::arithmetic::power2::{lemma_pow2_adds, lemma_pow2_pos, lemma2_to64, pow2};

verus! {

/// Value of a little-endian sequence of base-2^32 limbs.
pub open spec fn limbs_value(s: Seq<u32>) -> nat
    decreases s.len(),
{
    if s.len() == 0 {
        0
    } else {
        s[0] as nat + 0x1_0000_0000 * limbs_value(s.skip(1))
    }
}

/// Value of a little-endian sequence of base-2^64 limbs.
pub open spec fn limbs64_value(s: Seq<u64>) -> nat
    decreases s.len(),
{
    if s.len() == 0 {
        0
    } else {
        s[0] as nat + 0x1_0000_0000_0000_0000 * limbs64_value(s.skip(1))
    }
}

/// The limb at position `i`, or zero past the end.
pub open spec fn limb_at(s: Seq<u32>, i: int) -> u32 {
    if 0 <= i < s.len() {
        s[i]
    } else {
        0
    }
}

/// Value of the first `i` limbs, the whole sequence when `i` exceeds it.
pub open spec fn prefix_value(s: Seq<u32>, i: int) -> nat {
    if i <= s.len() {
        limbs_value(s.take(if i < 0 { 0 } else { i }))
    } else {
        limbs_value(s)
    }
}

proof fn lemma_limbs_value_push(s: Seq<u32>, x: u32)
    ensures
        limbs_value(s.push(x)) == limbs_value(s) + x * pow2(32 * s.len()),
    decreases s.len(),
{
    lemma_pow2_pos(32 * s.len());
    if s.len() == 0 {
        assert(s.push(x).len() == 1);
        assert(s.push(x)[0] == x);
        assert(s.push(x).skip(1) =~= Seq::<u32>::empty());
        assert(limbs_value(Seq::<u32>::empty()) == 0);
        assert(pow2(0) == 1) by {
            lemma2_to64();
        }
        assert(x * pow2(32 * s.len()) == x) by (nonlinear_arith)
            requires
                pow2(32 * s.len()) == 1;
    } else {
        assert(s.push(x).skip(1) =~= s.skip(1).push(x));
        lemma_limbs_value_push(s.skip(1), x);
        assert(pow2(32 * s.len()) == pow2(32) * pow2((32 * (s.len() - 1)) as nat)) by {
            lemma_pow2_adds(32, 32 * (s.len() - 1) as nat);
        }
        assert(pow2(32) == 0x1_0000_0000) by {
            lemma2_to64();
        }
        assert(0x1_0000_0000 * (limbs_value(s.skip(1)) + x * pow2(32 * (s.len() - 1) as nat))
            == 0x1_0000_0000 * limbs_value(s.skip(1)) + x * (0x1_0000_0000 * pow2(
            32 * (s.len() - 1) as nat,
        ))) by (nonlinear_arith);
    }
}

proof fn lemma_limbs64_value_push(s: Seq<u64>, x: u64)
    ensures
        limbs64_value(s.push(x)) == limbs64_value(s) + x * pow2(64 * s.len()),
    decreases s.len(),
{
    lemma_pow2_pos(64 * s.len());
    if s.len() == 0 {
        assert(s.push(x).skip(1) =~= Seq::<u64>::empty());
        assert(limbs64_value(Seq::<u64>::empty()) == 0);
        assert(pow2(0) == 1) by {
            lemma2_to64();
        }
        assert(x * pow2(64 * s.len()) == x) by (nonlinear_arith)
            requires
                pow2(64 * s.len()) == 1;
    } else {
        assert(s.push(x).skip(1) =~= s.skip(1).push(x));
        lemma_limbs64_value_push(s.skip(1), x);
        assert(pow2(64 * s.len()) == pow2(64) * pow2((64 * (s.len() - 1)) as nat)) by {
            lemma_pow2_adds(64, 64 * (s.len() - 1) as nat);
        }
        assert(pow2(64) == 0x1_0000_0000_0000_0000) by {
            lemma2_to64();
        }
        assert(0x1_0000_0000_0000_0000 * (limbs64_value(s.skip(1)) + x * pow2(
            64 * (s.len() - 1) as nat,
        )) == 0x1_0000_0000_0000_0000 * limbs64_value(s.skip(1)) + x * (0x1_0000_0000_0000_0000
            * pow2(64 * (s.len() - 1) as nat))) by (nonlinear_arith);
    }
}

proof fn lemma_prefix_value_step(s: Seq<u32>, i: int)
    requires
        0 <= i,
    ensures
        prefix_value(s, i + 1) == prefix_value(s, i) + limb_at(s, i) * pow2(32 * i as nat),
{
    if i < s.len() {
        assert(s.take(i + 1) =~= s.take(i).push(s[i]));
        lemma_limbs_value_push(s.take(i), s[i]);
    } else {
        assert(limb_at(s, i) == 0);
        if i == s.len() {
            assert(s.take(i) =~= s);
        }
    }
}

proof fn lemma_prefix_value_full(s: Seq<u32>, i: int)
    requires
        i >= s.len(),
    ensures
        prefix_value(s, i) == limbs_value(s),
{
    if i == s.len() {
        assert(s.take(i) =~= s);
    }
}

proof fn lemma_limbs_value_bound(s: Seq<u32>)
    ensures
        limbs_value(s) < pow2(32 * s.len()),
    decreases s.len(),
{
    lemma_pow2_pos(32 * s.len());
    if s.len() == 0 {
        assert(pow2(0) == 1) by {
            lemma2_to64();
        }
    } else {
        lemma_limbs_value_bound(s.skip(1));
        assert(pow2(32 * s.len()) == pow2(32) * pow2((32 * (s.len() - 1)) as nat)) by {
            lemma_pow2_adds(32, 32 * (s.len() - 1) as nat);
        }
        assert(pow2(32) == 0x1_0000_0000) by {
            lemma2_to64();
        }
        assert(limbs_value(s.skip(1)) + 1 <= pow2(32 * (s.len() - 1) as nat));
        assert(0x1_0000_0000 * limbs_value(s.skip(1)) + 0x1_0000_0000 <= 0x1_0000_0000 * pow2(
            32 * (s.len() - 1) as nat,
        )) by (nonlinear_arith)
            requires
                limbs_value(s.skip(1)) + 1 <= pow2(32 * (s.len() - 1) as nat);
    }
}

proof fn lemma_limbs_value_zeros(s: Seq<u32>)
    requires
        forall|j: int| 0 <= j < s.len() ==> s[j] == 0,
    ensures
        limbs_value(s) == 0,
    decreases s.len(),
{
    if s.len() > 0 {
        lemma_limbs_value_zeros(s.skip(1));
    }
}

proof fn lemma_limbs_value_zero_prefix(z: Seq<u32>, s: Seq<u32>)
    requires
        forall|j: int| 0 <= j < z.len() ==> z[j] == 0,
    ensures
        limbs_value(z + s) == pow2(32 * z.len()) * limbs_value(s),
    decreases z.len(),
{
    if z.len() == 0 {
        assert(z + s =~= s);
        assert(pow2(0) == 1) by {
            lemma2_to64();
        }
        assert(pow2(32 * z.len()) * limbs_value(s) == limbs_value(s)) by (nonlinear_arith)
            requires
                pow2(32 * z.len()) == 1;
    } else {
        assert((z + s).skip(1) =~= z.skip(1) + s);
        lemma_limbs_value_zero_prefix(z.skip(1), s);
        assert((z + s)[0] == 0);
        assert(pow2(32 * z.len()) == pow2(32) * pow2((32 * (z.len() - 1)) as nat)) by {
            lemma_pow2_adds(32, 32 * (z.len() - 1) as nat);
        }
        assert(pow2(32) == 0x1_0000_0000) by {
            lemma2_to64();
        }
        let p1: nat = pow2((32 * (z.len() - 1)) as nat);
        assert(32 * z.skip(1).len() == (32 * (z.len() - 1)) as nat);
        assert(limbs_value(z.skip(1) + s) == p1 * limbs_value(s));
        assert(limbs_value(z + s) == 0x1_0000_0000 * (p1 * limbs_value(s)));
        assert(0x1_0000_0000 * (p1 * limbs_value(s)) == (0x1_0000_0000 * p1) * limbs_value(s))
            by (nonlinear_arith);
        assert(pow2(32 * z.len()) == 0x1_0000_0000 * p1);
    }
}

/// Unbounded non-negative amount: compute credit or destination-chain tokens.
/// Little-endian base-2^32 limbs; the view is the numeric value.
pub struct Natural {
    limbs: Vec<u32>,
}

impl View for Natural {
    type V = nat;

    closed spec fn view(&self) -> nat {
        limbs_value(self.limbs@)
    }
}

impl Clone for Natural {
    fn clone(&self) -> (r: Self)
        ensures
            r@ == self@,
    {
        let mut limbs: Vec<u32> = Vec::new();
        let mut i: usize = 0;
        while i < self.limbs.len()
            invariant
                i <= self.limbs.len(),
                limbs@ =~= self.limbs@.take(i as int),
            decreases self.limbs.len() - i,
        {
            limbs.push(self.limbs[i]);
            i = i + 1;
        }
        assert(limbs@ =~= self.limbs@);
        Natural { limbs }
    }
}

impl Natural {
    pub fn zero() -> (r: Self)
        ensures
            r@ == 0,
    {
        Natural { limbs: Vec::new() }
    }

    pub fn from_u64(x: u64) -> (r: Self)
        ensures
            r@ == x,
    {
        proof {
            vstd::arithmetic::div_mod::lemma_mod_bound(x as int, 0x1_0000_0000);
            vstd::arithmetic::div_mod::lemma_multiply_divide_lt(x as int, 0x1_0000_0000, 0x1_0000_0000);
        }
        let lo: u32 = (x % 0x1_0000_0000) as u32;
        let hi: u32 = (x / 0x1_0000_0000) as u32;
        let mut limbs: Vec<u32> = Vec::new();
        proof {
            assert(limbs@ =~= Seq::<u32>::empty());
        }
        limbs.push(lo);
        limbs.push(hi);
        proof {
            assert(limbs_value(Seq::<u32>::empty()) == 0);
            assert(limbs@.skip(1).skip(1) =~= Seq::<u32>::empty());
            assert(limbs@.skip(1)[0] == hi);
            assert(limbs_value(limbs@.skip(1)) == hi);
            assert(limbs_value(limbs@) == lo as nat + 0x1_0000_0000 * limbs_value(limbs@.skip(1)));
            assert(lo + 0x1_0000_0000 * (x / 0x1_0000_0000) == x) by (nonlinear_arith)
                requires
                    lo == x % 0x1_0000_0000;
        }
        Natural { limbs }
    }

    /// Build from little-endian 64-bit limbs, as a 256-bit chain value arrives.
    pub fn from_u64_limbs(v: &Vec<u64>) -> (r: Self)
        ensures
            r@ == limbs64_value(v@),
    {
        let mut limbs: Vec<u32> = Vec::new();
        let mut i: usize = 0;
        proof {
            assert(v@.take(0) =~= Seq::<u64>::empty());
            assert(limbs64_value(Seq::<u64>::empty()) == 0);
            assert(limbs_value(Seq::<u32>::empty()) == 0);
        }
        while i < v.len()
            invariant
                i <= v.len(),
                limbs@.len() == 2 * i,
                limbs_value(limbs@) == limbs64_value(v@.take(i as int)),
            decreases v.len() - i,
        {
            let x: u64 = v[i];
            proof {
                vstd::arithmetic::div_mod::lemma_mod_bound(x as int, 0x1_0000_0000);
                vstd::arithmetic::div_mod::lemma_multiply_divide_lt(
                    x as int,
                    0x1_0000_0000,
                    0x1_0000_0000,
                );
            }
            let lo: u32 = (x % 0x1_0000_0000) as u32;
            let hi: u32 = (x / 0x1_0000_0000) as u32;
            proof {
                lemma_limbs_value_push(limbs@, lo);
                lemma_limbs_value_push(limbs@.push(lo), hi);
                assert(v@.take(i + 1) =~= v@.take(i as int).push(x));
                lemma_limbs64_value_push(v@.take(i as int), x);
                lemma_pow2_adds(32 * (2 * i) as nat, 32);
                lemma_pow2_adds(64 * i as nat, 64);
                lemma_pow2_adds(32, 32);
                lemma2_to64();
                assert(32 * (2 * i) as nat == 64 * i as nat);
                assert(lo + 0x1_0000_0000 * (hi as nat) == x) by (nonlinear_arith)
                    requires
                        lo == x % 0x1_0000_0000,
                        hi == x / 0x1_0000_0000;
                let p: nat = pow2(64 * i as nat);
                assert(lo * p + hi * (p * 0x1_0000_0000) == (lo + 0x1_0000_0000 * (hi as nat))
                    * p) by (nonlinear_arith);
            }
            limbs.push(lo);
            limbs.push(hi);
            i = i + 1;
        }
        proof {
            assert(v@.take(v@.len() as int) =~= v@);
        }
        Natural { limbs }
    }

    fn limb(&self, i: usize) -> (r: u32)
        ensures
            r == limb_at(self.limbs@, i as int),
    {
        if i < self.limbs.len() {
            self.limbs[i]
        } else {
            0
        }
    }

    pub fn add(&self, other: &Self) -> (r: Self)
        ensures
            r@ == self@ + other@,
    {
        let n: usize = if self.limbs.len() > other.limbs.len() {
            self.limbs.len()
        } else {
            other.limbs.len()
        };
        let mut out: Vec<u32> = Vec::new();
        let mut carry: u64 = 0;
        let mut i: usize = 0;
        while i < n
            invariant
                i <= n,
                n >= self.limbs@.len(),
                n >= other.limbs@.len(),
                carry <= 1,
                out@.len() == i,
                limbs_value(out@) + carry * pow2(32 * i as nat) == prefix_value(self.limbs@, i as int)
                    + prefix_value(other.limbs@, i as int),
            decreases n - i,
        {
            let a: u32 = self.limb(i);
            let b: u32 = other.limb(i);
            let t: u64 = a as u64 + b as u64 + carry;
            proof {
                vstd::arithmetic::div_mod::lemma_mod_bound(t as int, 0x1_0000_0000);
                vstd::arithmetic::div_mod::lemma_multiply_divide_lt(t as int, 0x1_0000_0000, 2);
            }
            let lo: u32 = (t % 0x1_0000_0000) as u32;
            let next: u64 = t / 0x1_0000_0000;
            proof {
                let p: nat = pow2(32 * i as nat);
                lemma_limbs_value_push(out@, lo);
                lemma_prefix_value_step(self.limbs@, i as int);
                lemma_prefix_value_step(other.limbs@, i as int);
                lemma_pow2_adds(32 * i as nat, 32);
                lemma2_to64();
                assert(lo + 0x1_0000_0000 * next == t) by (nonlinear_arith)
                    requires
                        lo == t % 0x1_0000_0000,
                        next == t / 0x1_0000_0000;
                assert(lo * p + next * (p * 0x1_0000_0000) + a * p + b * p == (lo + 0x1_0000_0000
                    * next) * p + a * p + b * p) by (nonlinear_arith);
                assert((a as u64 + b as u64 + carry) * p == a * p + b * p + carry * p)
                    by (nonlinear_arith);
            }
            out.push(lo);
            carry = next;
            i = i + 1;
        }
        if carry > 0 {
            proof {
                lemma_limbs_value_push(out@, carry as u32);
            }
            out.push(carry as u32);
        }
        proof {
            lemma_prefix_value_full(self.limbs@, n as int);
            lemma_prefix_value_full(other.limbs@, n as int);
        }
        Natural { limbs: out }
    }

    /// Subtraction that refuses to underflow: `None` when `other` exceeds `self`.
    pub fn checked_sub(&self, other: &Self) -> (r: Option<Self>)
        ensures
            other@ <= self@ ==> (r is Some && r->Some_0@ == self@ - other@),
            other@ > self@ ==> r is None,
    {
        let n: usize = if self.limbs.len() > other.limbs.len() {
            self.limbs.len()
        } else {
            other.limbs.len()
        };
        let mut out: Vec<u32> = Vec::new();
        let mut borrow: u64 = 0;
        let mut i: usize = 0;
        while i < n
            invariant
                i <= n,
                n >= self.limbs@.len(),
                n >= other.limbs@.len(),
                borrow <= 1,
                out@.len() == i,
                prefix_value(self.limbs@, i as int) + borrow * pow2(32 * i as nat) == limbs_value(
                    out@,
                ) + prefix_value(other.limbs@, i as int),
            decreases n - i,
        {
            let a: u32 = self.limb(i);
            let b: u32 = other.limb(i);
            let t: u64 = a as u64 + 0x1_0000_0000 - b as u64 - borrow;
            proof {
                vstd::arithmetic::div_mod::lemma_mod_bound(t as int, 0x1_0000_0000);
                vstd::arithmetic::div_mod::lemma_multiply_divide_lt(t as int, 0x1_0000_0000, 2);
            }
            let lo: u32 = (t % 0x1_0000_0000) as u32;
            let hi: u64 = t / 0x1_0000_0000;
            let next: u64 = 1 - hi;
            proof {
                let p: nat = pow2(32 * i as nat);
                lemma_limbs_value_push(out@, lo);
                lemma_prefix_value_step(self.limbs@, i as int);
                lemma_prefix_value_step(other.limbs@, i as int);
                lemma_pow2_adds(32 * i as nat, 32);
                lemma2_to64();
                assert(hi <= 1);
                assert(lo + 0x1_0000_0000 * hi == t) by (nonlinear_arith)
                    requires
                        lo == t % 0x1_0000_0000,
                        hi == t / 0x1_0000_0000;
                // a + 2^32 - b - borrow == lo + 2^32 * hi, multiplied through by p
                assert((a as u64 + 0x1_0000_0000 - b as u64 - borrow) * p == a * p + 0x1_0000_0000
                    * p - b * p - borrow * p) by (nonlinear_arith)
                    requires
                        b as u64 + borrow <= a as u64 + 0x1_0000_0000;
                assert((lo + 0x1_0000_0000 * hi) * p == lo * p + hi * (0x1_0000_0000 * p))
                    by (nonlinear_arith);
                assert((1 - hi) * (0x1_0000_0000 * p) == 0x1_0000_0000 * p - hi * (0x1_0000_0000
                    * p)) by (nonlinear_arith)
                    requires
                        hi <= 1;
            }
            out.push(lo);
            borrow = next;
            i = i + 1;
        }
        proof {
            lemma_prefix_value_full(self.limbs@, n as int);
            lemma_prefix_value_full(other.limbs@, n as int);
        }
        if borrow > 0 {
            proof {
                lemma_limbs_value_bound(out@);
                lemma_pow2_pos(32 * n as nat);
            }
            None
        } else {
            Some(Natural { limbs: out })
        }
    }

    pub fn le(&self, other: &Self) -> (r: bool)
        ensures
            r == (self@ <= other@),
    {
        match other.checked_sub(self) {
            Some(_) => true,
            None => false,
        }
    }

    pub fn lt(&self, other: &Self) -> (r: bool)
        ensures
            r == (self@ < other@),
    {
        match self.checked_sub(other) {
            Some(_) => false,
            None => true,
        }
    }

    pub fn eq_u64(&self, x: u64) -> (r: bool)
        ensures
            r == (self@ == x),
    {
        let n = Natural::from_u64(x);
        self.le(&n) && n.le(self)
    }

    pub fn mul_u32(&self, m: u32) -> (r: Self)
        ensures
            r@ == self@ * m,
    {
        let mut out: Vec<u32> = Vec::new();
        let mut carry: u64 = 0;
        let mut i: usize = 0;
        proof {
            assert(self.limbs@.take(0) =~= Seq::<u32>::empty());
            assert(limbs_value(Seq::<u32>::empty()) == 0);
            assert(prefix_value(self.limbs@, 0) * m == 0) by (nonlinear_arith)
                requires
                    prefix_value(self.limbs@, 0) == 0;
        }
        while i < self.limbs.len()
            invariant
                i <= self.limbs@.len(),
                carry < 0x1_0000_0000,
                out@.len() == i,
                limbs_value(out@) + carry * pow2(32 * i as nat) == prefix_value(
                    self.limbs@,
                    i as int,
                ) * m,
            decreases self.limbs@.len() - i,
        {
            let a: u32 = self.limbs[i];
            proof {
                assert(a as u64 * m as u64 <= 0xFFFF_FFFF * 0xFFFF_FFFF) by (nonlinear_arith)
                    requires
                        a <= 0xFFFF_FFFF,
                        m <= 0xFFFF_FFFF;
            }
            let t: u64 = a as u64 * m as u64 + carry;
            proof {
                vstd::arithmetic::div_mod::lemma_mod_bound(t as int, 0x1_0000_0000);
                vstd::arithmetic::div_mod::lemma_multiply_divide_lt(
                    t as int,
                    0x1_0000_0000,
                    0x1_0000_0000,
                );
            }
            let lo: u32 = (t % 0x1_0000_0000) as u32;
            let next: u64 = t / 0x1_0000_0000;
            proof {
                let p: nat = pow2(32 * i as nat);
                lemma_limbs_value_push(out@, lo);
                lemma_prefix_value_step(self.limbs@, i as int);
                lemma_pow2_adds(32 * i as nat, 32);
                lemma2_to64();
                assert(lo + 0x1_0000_0000 * next == t) by (nonlinear_arith)
                    requires
                        lo == t % 0x1_0000_0000,
                        next == t / 0x1_0000_0000;
                assert((prefix_value(self.limbs@, i as int) + a * p) * m == prefix_value(
                    self.limbs@,
                    i as int,
                ) * m + (a as u64 * m as u64) * p) by (nonlinear_arith);
                assert(lo * p + next * (p * 0x1_0000_0000) == (lo + 0x1_0000_0000 * next) * p)
                    by (nonlinear_arith);
                assert((a as u64 * m as u64 + carry) * p == (a as u64 * m as u64) * p + carry * p)
                    by (nonlinear_arith);
            }
            out.push(lo);
            carry = next;
            i = i + 1;
        }
        if carry > 0 {
            proof {
                lemma_limbs_value_push(out@, carry as u32);
            }
            out.push(carry as u32);
        }
        proof {
            lemma_prefix_value_full(self.limbs@, self.limbs@.len() as int);
        }
        Natural { limbs: out }
    }

    /// `self * pow2(32 * k)`: prepend `k` zero limbs.
    fn shift_limbs(&self, k: usize) -> (r: Self)
        ensures
            r@ == pow2(32 * k as nat) * self@,
    {
        let mut out: Vec<u32> = Vec::new();
        let mut i: usize = 0;
        while i < k
            invariant
                i <= k,
                out@.len() == i,
                forall|j: int| 0 <= j < out@.len() ==> out@[j] == 0,
            decreases k - i,
        {
            out.push(0);
            i = i + 1;
        }
        let ghost zeros: Seq<u32> = out@;
        let mut j: usize = 0;
        while j < self.limbs.len()
            invariant
                j <= self.limbs@.len(),
                out@ =~= zeros + self.limbs@.take(j as int),
                zeros.len() == k,
                forall|t: int| 0 <= t < zeros.len() ==> zeros[t] == 0,
            decreases self.limbs@.len() - j,
        {
            out.push(self.limbs[j]);
            j = j + 1;
        }
        proof {
            assert(out@ =~= zeros + self.limbs@);
            lemma_limbs_value_zero_prefix(zeros, self.limbs@);
        }
        Natural { limbs: out }
    }

    pub fn mul(&self, other: &Self) -> (r: Self)
        ensures
            r@ == self@ * other@,
    {
        let mut acc = Natural::zero();
        let mut i: usize = 0;
        proof {
            assert(prefix_value(other.limbs@, 0) == limbs_value(other.limbs@.take(0)));
            assert(other.limbs@.take(0) =~= Seq::<u32>::empty());
            assert(limbs_value(Seq::<u32>::empty()) == 0);
        }
        while i < other.limbs.len()
            invariant
                i <= other.limbs@.len(),
                acc@ == self@ * prefix_value(other.limbs@, i as int),
            decreases other.limbs@.len() - i,
        {
            let part = self.mul_u32(other.limbs[i]);
            let shifted = part.shift_limbs(i);
            proof {
                let p: nat = pow2(32 * i as nat);
                let b: u32 = other.limbs@[i as int];
                lemma_prefix_value_step(other.limbs@, i as int);
                assert(self@ * (prefix_value(other.limbs@, i as int) + b * p) == self@
                    * prefix_value(other.limbs@, i as int) + p * (self@ * b)) by (nonlinear_arith);
            }
            acc = acc.add(&shifted);
            i = i + 1;
        }
        proof {
            lemma_prefix_value_full(other.limbs@, other.limbs@.len() as int);
        }
        acc
    }

    pub fn is_zero(&self) -> (r: bool)
        ensures
            r == (self@ == 0),
    {
        let mut i: usize = 0;
        while i < self.limbs.len()
            invariant
                i <= self.limbs@.len(),
                forall|k: int| 0 <= k < i ==> self.limbs@[k] == 0,
            decreases self.limbs@.len() - i,
        {
            if self.limbs[i] != 0 {
                proof {
                    lemma_limbs_value_nonzero(self.limbs@, i as int);
                }
                return false;
            }
            i = i + 1;
        }
        proof {
            lemma_limbs_value_zeros(self.limbs@);
        }
        true
    }

    /// The remainder of the value by 256: the low byte of the low limb.
    fn low_byte(&self) -> (r: u8)
        ensures
            r == self@ % 256,
    {
        if self.limbs.len() == 0 {
            proof {
                assert(self.limbs@.len() == 0);
            }
            return 0;
        }
        let b: u8 = (self.limbs[0] % 256) as u8;
        proof {
            lemma_low_limb_mod(self.limbs@);
        }
        b
    }

    /// Euclidean quotient by a small non-zero divisor.
    pub fn div_u32(&self, d: u32) -> (r: Self)
        requires
            d > 0,
        ensures
            r@ == self@ / d as nat,
    {
        let n: usize = self.limbs.len();
        let mut out: Vec<u32> = Vec::new();
        let mut i: usize = 0;
        while i < n
            invariant
                i <= n,
                n == self.limbs@.len(),
                out@.len() == i,
            decreases n - i,
        {
            out.push(0);
            i = i + 1;
        }
        let mut rem: u64 = 0;
        let mut j: usize = n;
        proof {
            assert(self.limbs@.skip(n as int) =~= Seq::<u32>::empty());
            assert(out@.skip(n as int) =~= Seq::<u32>::empty());
            assert(limbs_value(Seq::<u32>::empty()) == 0);
        }
        while j > 0
            invariant
                j <= n,
                n == self.limbs@.len(),
                out@.len() == n,
                rem < d,
                d > 0,
                limbs_value(self.limbs@.skip(j as int)) == limbs_value(out@.skip(j as int)) * d
                    + rem,
            decreases j,
        {
            let a: u32 = self.limbs[j - 1];
            proof {
                assert(rem * 0x1_0000_0000 + 0xFFFF_FFFF < 0x1_0000_0000_0000_0000)
                    by (nonlinear_arith)
                    requires
                        rem <= 0xFFFF_FFFE;
            }
            let cur: u64 = rem * 0x1_0000_0000 + a as u64;
            let q: u64 = cur / d as u64;
            let r2: u64 = cur % d as u64;
            proof {
                vstd::arithmetic::div_mod::lemma_fundamental_div_mod(cur as int, d as int);
                assert(cur < d as u64 * 0x1_0000_0000) by (nonlinear_arith)
                    requires
                        rem < d,
                        cur == rem * 0x1_0000_0000 + a as u64,
                        (a as u64) < 0x1_0000_0000;
                vstd::arithmetic::div_mod::lemma_multiply_divide_lt(
                    cur as int,
                    d as int,
                    0x1_0000_0000,
                );
            }
            let ghost old_out: Seq<u32> = out@;
            let ghost rem_old: u64 = rem;
            out.set(j - 1, q as u32);
            rem = r2;
            j = j - 1;
            proof {
                assert(out@.skip(j as int)[0] == q as u32);
                assert(out@.skip(j as int).skip(1) =~= old_out.skip(j + 1));
                assert(self.limbs@.skip(j as int)[0] == a);
                assert(self.limbs@.skip(j as int).skip(1) =~= self.limbs@.skip(j + 1));
                let hi: nat = limbs_value(old_out.skip(j + 1));
                // value(self.skip(j)) == a + 2^32 * (hi * d + rem_old)
                //                     == (q + 2^32 * hi) * d + r2
                assert(a as nat + 0x1_0000_0000 * (hi * d as nat + rem_old as nat) == (q as nat
                    + 0x1_0000_0000 * hi) * d as nat + r2 as nat) by (nonlinear_arith)
                    requires
                        d as int * (q as int) + r2 as int == cur as int,
                        cur == rem_old * 0x1_0000_0000 + a as u64;
            }
        }
        proof {
            assert(self.limbs@.skip(0) =~= self.limbs@);
            assert(out@.skip(0) =~= out@);
            vstd::arithmetic::div_mod::lemma_fundamental_div_mod_converse(
                limbs_value(self.limbs@) as int,
                d as int,
                limbs_value(out@) as int,
                rem as int,
            );
        }
        Natural { limbs: out }
    }
}

/// The shortest little-endian byte rendering of a number.
pub open spec fn nat_to_le_bytes(n: nat) -> Seq<u8>
    decreases n,
{
    if n == 0 {
        Seq::empty()
    } else {
        seq![(n % 256) as u8] + nat_to_le_bytes(n / 256)
    }
}

/// The number a little-endian byte string stands for.
pub open spec fn le_bytes_value(s: Seq<u8>) -> nat
    decreases s.len(),
{
    if s.len() == 0 {
        0
    } else {
        s[0] as nat + 256 * le_bytes_value(s.skip(1))
    }
}

/// Reading back a rendering gives the number.
pub proof fn lemma_le_bytes_round_trip(n: nat)
    ensures
        le_bytes_value(nat_to_le_bytes(n)) == n,
    decreases n,
{
    if n != 0 {
        vstd::arithmetic::div_mod::lemma_div_is_strictly_smaller(n as int, 256);
        lemma_le_bytes_round_trip(n / 256);
        assert(nat_to_le_bytes(n).skip(1) =~= nat_to_le_bytes(n / 256));
        vstd::arithmetic::div_mod::lemma_fundamental_div_mod(n as int, 256);
    }
}

/// The low limb determines the value's low byte.
proof fn lemma_low_limb_mod(s: Seq<u32>)
    requires
        s.len() > 0,
    ensures
        limbs_value(s) % 256 == s[0] % 256,
{
    let rest = limbs_value(s.skip(1));
    assert(limbs_value(s) == s[0] + 0x1_0000_0000 * rest);
    assert((s[0] + 0x1_0000_0000 * rest) % 256 == s[0] % 256) by (nonlinear_arith);
}

/// A nonzero limb makes the value nonzero.
proof fn lemma_limbs_value_nonzero(s: Seq<u32>, i: int)
    requires
        0 <= i < s.len(),
        s[i] != 0,
    ensures
        limbs_value(s) >= 1,
    decreases i,
{
    if i == 0 {
    } else {
        lemma_limbs_value_nonzero(s.skip(1), i - 1);
    }
}

impl Natural {
    /// The value's shortest little-endian byte rendering.
    pub fn to_le_bytes(&self) -> (r: Vec<u8>)
        ensures
            r@ == nat_to_le_bytes(self@),
        decreases self@,
    {
        let mut out: Vec<u8> = Vec::new();
        let mut cur = self.clone();
        let ghost n0: nat = self@;
        proof {
            assert(nat_to_le_bytes(n0).take(0) =~= Seq::<u8>::empty());
        }
        while !cur.is_zero()
            invariant
                nat_to_le_bytes(n0) =~= out@ + nat_to_le_bytes(cur@),
            decreases cur@,
        {
            let b = cur.low_byte();
            let ghost pre: nat = cur@;
            out.push(b);
            cur = cur.div_u32(256);
            proof {
                vstd::arithmetic::div_mod::lemma_div_is_strictly_smaller(pre as int, 256);
                assert(nat_to_le_bytes(pre) == seq![(pre % 256) as u8] + nat_to_le_bytes(pre / 256));
                assert(nat_to_le_bytes(pre).skip(1) =~= nat_to_le_bytes(pre / 256));
                assert(nat_to_le_bytes(n0) =~= out@ + nat_to_le_bytes(cur@));
            }
        }
        proof {
            assert(nat_to_le_bytes(cur@) =~= Seq::<u8>::empty());
            assert(out@ =~= nat_to_le_bytes(n0));
        }
        out
    }

    /// The number a little-endian byte rendering stands for.
    pub fn from_le_bytes(bytes: &Vec<u8>) -> (r: Self)
        ensures
            r@ == le_bytes_value(bytes@),
    {
        let mut acc = Natural::zero();
        let mut i: usize = bytes.len();
        proof {
            assert(bytes@.skip(bytes@.len() as int) =~= Seq::<u8>::empty());
        }
        while i > 0
            invariant
                i <= bytes@.len(),
                acc@ == le_bytes_value(bytes@.skip(i as int)),
            decreases i,
        {
            let b = bytes[i - 1];
            let scaled = acc.mul_u32(256);
            let byte_n = Natural::from_u64(b as u64);
            acc = scaled.add(&byte_n);
            i = i - 1;
            proof {
                assert(bytes@.skip(i as int)[0] == bytes@[i as int]);
                assert(bytes@.skip(i as int).skip(1) =~= bytes@.skip(i + 1));
            }
        }
        proof {
            assert(bytes@.skip(0) =~= bytes@);
        }
        acc
    }
}

} // verus!
