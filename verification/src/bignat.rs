//! Arbitrary-precision natural numbers, just large enough to compare the
//! exact rational class scores of the classifier: building a number from a
//! machine integer, multiplying by a machine integer, and exact comparison.

use vstd::prelude::*;
use vstd::arithmetic::power2::pow2;
use vstd::arithmetic::power2::lemma_pow2_adds;
use vstd::arithmetic::power2::lemma2_to64;
use vstd::arithmetic::div_mod::lemma_fundamental_div_mod;

verus! {

broadcast use vstd::arithmetic::mul::group_mul_basics;

/// The value of a little-endian sequence of 64-bit limbs.
pub open spec fn limbs_val(s: Seq<u64>) -> nat
    decreases s.len(),
{
    if s.len() == 0 {
        0
    } else {
        limbs_val(s.drop_last()) + (s.last() as nat) * pow2(64 * ((s.len() - 1) as nat))
    }
}

/// Outcome of an exact comparison.
#[derive(Clone, Copy, PartialEq, Eq, Structural, Debug)]
pub enum Rel {
    Lt,
    Eq,
    Gt,
}

proof fn lemma_val_push(s: Seq<u64>, x: u64)
    ensures
        limbs_val(s.push(x)) == limbs_val(s) + (x as nat) * pow2(64 * s.len()),
{
    assert(s.push(x).drop_last() =~= s);
    assert(s.push(x).last() == x);
}

/// Every limb sequence of length `n` has value below `2^(64 n)`.
proof fn lemma_val_lt(s: Seq<u64>)
    ensures
        limbs_val(s) < pow2(64 * s.len()),
    decreases s.len(),
{
    if s.len() == 0 {
        lemma2_to64();
    } else {
        let n = s.len();
        let p: nat = pow2(64 * ((n - 1) as nat));
        let b: nat = pow2(64);
        lemma_val_lt(s.drop_last());
        lemma_pow2_adds(64 * ((n - 1) as nat), 64);
        lemma2_to64();
        assert(limbs_val(s.drop_last()) + (s.last() as nat) * p < p * b) by (nonlinear_arith)
            requires
                limbs_val(s.drop_last()) < p,
                (s.last() as nat) < b,
                p > 0,
        ;
    }
}

/// Equal-length limb sequences that agree above position `i` are ordered
/// by their limbs at position `i`.
proof fn lemma_val_gt_at(a: Seq<u64>, b: Seq<u64>, i: int)
    requires
        a.len() == b.len(),
        0 <= i < a.len(),
        forall|j: int| i < j < a.len() ==> a[j] == b[j],
        a[i] > b[i],
    ensures
        limbs_val(a) > limbs_val(b),
    decreases a.len(),
{
    let n = a.len();
    let p: nat = pow2(64 * ((n - 1) as nat));
    if i == n - 1 {
        lemma_val_lt(b.drop_last());
        assert(limbs_val(b.drop_last()) + (b.last() as nat) * p < limbs_val(a.drop_last()) + (
        a.last() as nat) * p) by (nonlinear_arith)
            requires
                limbs_val(b.drop_last()) < p,
                (b.last() as nat) + 1 <= (a.last() as nat),
                limbs_val(a.drop_last()) >= 0,
                p > 0,
        ;
    } else {
        assert(a.last() == b.last());
        lemma_val_gt_at(a.drop_last(), b.drop_last(), i);
    }
}

/// An all-zero extension on the most-significant side keeps the value.
spec fn zext(s: Seq<u64>, n: int) -> Seq<u64> {
    if n >= s.len() {
        s + Seq::new((n - s.len()) as nat, |i: int| 0u64)
    } else {
        s
    }
}

proof fn lemma_zext_val(s: Seq<u64>, n: int)
    ensures
        limbs_val(zext(s, n)) == limbs_val(s),
        n >= s.len() ==> zext(s, n).len() == n,
        forall|j: int| 0 <= j < s.len() ==> zext(s, n)[j] == s[j],
        forall|j: int| s.len() <= j < zext(s, n).len() ==> zext(s, n)[j] == 0,
    decreases
            if n > s.len() {
                n - s.len()
            } else {
                0
            },
{
    if n > s.len() {
        lemma_zext_val(s, n - 1);
        assert(zext(s, n).drop_last() =~= zext(s, n - 1));
        assert(zext(s, n).last() == 0);
        assert(limbs_val(zext(s, n)) == limbs_val(zext(s, n - 1)));
    } else {
        assert(zext(s, n) =~= s);
    }
}

/// The limb at position `i`, reading positions past the end as zero.
spec fn limb_at(s: Seq<u64>, i: int) -> u64 {
    if 0 <= i < s.len() {
        s[i]
    } else {
        0u64
    }
}

fn get_limb(v: &Vec<u64>, i: usize) -> (r: u64)
    ensures
        r == limb_at(v@, i as int),
{
    if i < v.len() {
        v[i]
    } else {
        0
    }
}

/// An unsigned integer of arbitrary size, stored as little-endian 64-bit
/// limbs.
pub struct BigNat {
    limbs: Vec<u64>,
}

impl BigNat {
    /// The natural number this value stands for.
    pub closed spec fn value(self) -> nat {
        limbs_val(self.limbs@)
    }

    pub fn one() -> (r: BigNat)
        ensures
            r.value() == 1,
    {
        let mut limbs: Vec<u64> = Vec::new();
        limbs.push(1);
        proof {
            lemma_val_push(Seq::<u64>::empty(), 1);
            lemma2_to64();
        }
        BigNat { limbs }
    }

    /// Product with a 64-bit factor, by the schoolbook carry loop.
    pub fn mul_small(&self, m: u64) -> (r: BigNat)
        ensures
            r.value() == self.value() * m,
    {
        let n = self.limbs.len();
        let mut out: Vec<u64> = Vec::new();
        let mut carry: u64 = 0;
        let mut i: usize = 0;
        proof {
            lemma2_to64();
            assert(self.limbs@.take(0) =~= Seq::<u64>::empty());
        }
        while i < n
            invariant
                i <= n,
                n == self.limbs@.len(),
                out@.len() == i,
                limbs_val(out@) + (carry as nat) * pow2(64 * (i as nat)) == limbs_val(
                    self.limbs@.take(i as int),
                ) * (m as nat),
            decreases n - i,
        {
            let a: u64 = self.limbs[i];
            proof {
                assert((a as int) * (m as int) + (carry as int)
                    <= 0xffffffffffffffffffffffffffffffff) by (nonlinear_arith)
                    requires
                        a <= 0xffffffffffffffffu64,
                        m <= 0xffffffffffffffffu64,
                        carry <= 0xffffffffffffffffu64,
                ;
            }
            let p: u128 = (a as u128) * (m as u128) + (carry as u128);
            proof {
                assert(p / 0x10000000000000000u128 < 0x10000000000000000) by (nonlinear_arith)
                    requires
                        p <= 0xffffffffffffffffffffffffffffffffu128,
                ;
            }
            let lo: u64 = (p % 0x10000000000000000u128) as u64;
            let hi: u64 = (p / 0x10000000000000000u128) as u64;
            proof {
                let gout1 = out@;
                let gtake_i = self.limbs@.take(i as int);
                let gtake_i1 = self.limbs@.take(i as int + 1);
                let pi: nat = pow2(64 * (i as nat));
                let pi1: nat = pow2(64 * ((i + 1) as nat));
                let bb: nat = pow2(64);
                lemma2_to64();
                lemma_fundamental_div_mod(p as int, 0x10000000000000000);
                lemma_pow2_adds(64 * (i as nat), 64);
                lemma_val_push(gout1, lo);
                assert(gtake_i1.drop_last() =~= gtake_i);
                assert(gtake_i1.last() == a);
                assert(limbs_val(gtake_i1) == limbs_val(gtake_i) + (a as nat) * pi);
                assert(limbs_val(gout1.push(lo)) + (hi as nat) * pi1 == limbs_val(gtake_i1) * (
                m as nat)) by (nonlinear_arith)
                    requires
                        limbs_val(gout1.push(lo)) == limbs_val(gout1) + (lo as nat) * pi,
                        limbs_val(gout1) + (carry as nat) * pi == limbs_val(gtake_i) * (m as nat),
                        limbs_val(gtake_i1) == limbs_val(gtake_i) + (a as nat) * pi,
                        pi1 == pi * bb,
                        (lo as int) + (hi as int) * (bb as int) == (a as int) * (m as int) + (
                        carry as int),
                ;
            }
            out.push(lo);
            carry = hi;
            i += 1;
        }
        proof {
            assert(self.limbs@.take(n as int) =~= self.limbs@);
            lemma_val_push(out@, carry);
        }
        out.push(carry);
        BigNat { limbs: out }
    }

    /// The same value shifted one limb up: multiplication by `2^64`.
    fn shifted(&self) -> (r: BigNat)
        ensures
            r.value() == self.value() * pow2(64),
    {
        let n = self.limbs.len();
        let mut out: Vec<u64> = Vec::new();
        out.push(0);
        let mut i: usize = 0;
        while i < n
            invariant
                i <= n,
                n == self.limbs@.len(),
                out@ =~= seq![0u64] + self.limbs@.take(i as int),
            decreases n - i,
        {
            let a = self.limbs[i];
            out.push(a);
            proof {
                assert(out@ =~= seq![0u64] + self.limbs@.take(i as int + 1));
            }
            i += 1;
        }
        proof {
            assert(self.limbs@.take(n as int) =~= self.limbs@);
            lemma_shl(self.limbs@);
        }
        BigNat { limbs: out }
    }

    /// Sum of two values, by the schoolbook carry loop.
    pub fn plus(&self, other: &BigNat) -> (r: BigNat)
        ensures
            r.value() == self.value() + other.value(),
    {
        let la = self.limbs.len();
        let lb = other.limbs.len();
        let n = if la > lb {
            la
        } else {
            lb
        };
        let mut out: Vec<u64> = Vec::new();
        let mut carry: u64 = 0;
        let mut i: usize = 0;
        proof {
            lemma2_to64();
            assert(prefix(self.limbs@, 0) =~= Seq::<u64>::empty());
            assert(prefix(other.limbs@, 0) =~= Seq::<u64>::empty());
        }
        while i < n
            invariant
                i <= n,
                n >= self.limbs@.len(),
                n >= other.limbs@.len(),
                out@.len() == i,
                carry <= 1,
                limbs_val(out@) + (carry as nat) * pow2(64 * (i as nat)) == limbs_val(
                    prefix(self.limbs@, i as int),
                ) + limbs_val(prefix(other.limbs@, i as int)),
            decreases n - i,
        {
            let ai = get_limb(&self.limbs, i);
            let bi = get_limb(&other.limbs, i);
            let p: u128 = (ai as u128) + (bi as u128) + (carry as u128);
            proof {
                assert(p / 0x10000000000000000u128 < 2) by (nonlinear_arith)
                    requires
                        p < 2 * 0x10000000000000000u128,
                ;
            }
            let lo: u64 = (p % 0x10000000000000000u128) as u64;
            let hi: u64 = (p / 0x10000000000000000u128) as u64;
            proof {
                let gout1 = out@;
                let ga_i = prefix(self.limbs@, i as int);
                let ga_i1 = prefix(self.limbs@, i as int + 1);
                let gb_i = prefix(other.limbs@, i as int);
                let gb_i1 = prefix(other.limbs@, i as int + 1);
                let pi: nat = pow2(64 * (i as nat));
                let pi1: nat = pow2(64 * ((i + 1) as nat));
                let bb: nat = pow2(64);
                lemma2_to64();
                lemma_fundamental_div_mod(p as int, 0x10000000000000000);
                lemma_pow2_adds(64 * (i as nat), 64);
                lemma_val_push(gout1, lo);
                lemma_prefix_step(self.limbs@, i as int);
                lemma_prefix_step(other.limbs@, i as int);
                assert(limbs_val(ga_i1) == limbs_val(ga_i) + (limb_at(self.limbs@, i as int) as nat)
                    * pi);
                assert(limbs_val(gb_i1) == limbs_val(gb_i) + (limb_at(other.limbs@, i as int) as nat)
                    * pi);
                assert(limbs_val(gout1.push(lo)) + (hi as nat) * pi1 == limbs_val(ga_i1)
                    + limbs_val(gb_i1)) by (nonlinear_arith)
                    requires
                        limbs_val(gout1.push(lo)) == limbs_val(gout1) + (lo as nat) * pi,
                        limbs_val(gout1) + (carry as nat) * pi == limbs_val(ga_i) + limbs_val(gb_i),
                        limbs_val(ga_i1) == limbs_val(ga_i) + (ai as nat) * pi,
                        limbs_val(gb_i1) == limbs_val(gb_i) + (bi as nat) * pi,
                        pi1 == pi * bb,
                        (lo as int) + (hi as int) * (bb as int) == (ai as int) + (bi as int) + (
                        carry as int),
                ;
            }
            out.push(lo);
            carry = hi;
            i += 1;
        }
        proof {
            assert(prefix(self.limbs@, n as int) =~= self.limbs@);
            assert(prefix(other.limbs@, n as int) =~= other.limbs@);
            lemma_val_push(out@, carry);
        }
        out.push(carry);
        BigNat { limbs: out }
    }

    /// Product with a 128-bit factor, composed from the two 64-bit halves.
    pub fn mul_wide(&self, m: u128) -> (r: BigNat)
        ensures
            r.value() == self.value() * m,
    {
        let lo: u64 = (m % 0x10000000000000000u128) as u64;
        proof {
            assert(m / 0x10000000000000000u128 < 0x10000000000000000) by (nonlinear_arith)
                requires
                    m <= 0xffffffffffffffffffffffffffffffffu128,
            ;
        }
        let hi: u64 = (m / 0x10000000000000000u128) as u64;
        let r1 = self.mul_small(lo);
        let r2 = self.mul_small(hi).shifted();
        let r = r1.plus(&r2);
        proof {
            let v = self.value();
            let bb: nat = pow2(64);
            lemma_fundamental_div_mod(m as int, 0x10000000000000000);
            lemma2_to64();
            assert(v * (lo as nat) + v * (hi as nat) * bb == v * (m as nat)) by (nonlinear_arith)
                requires
                    (lo as int) + (hi as int) * (bb as int) == m as int,
            ;
        }
        r
    }

    /// Exact three-way comparison of the two values.
    pub fn cmp_with(&self, other: &BigNat) -> (r: Rel)
        ensures
            (r == Rel::Lt <==> self.value() < other.value()),
            (r == Rel::Eq <==> self.value() == other.value()),
            (r == Rel::Gt <==> self.value() > other.value()),
    {
        let la = self.limbs.len();
        let lb = other.limbs.len();
        let n = if la > lb {
            la
        } else {
            lb
        };
        let ghost ea = zext(self.limbs@, n as int);
        let ghost eb = zext(other.limbs@, n as int);
        proof {
            lemma_zext_val(self.limbs@, n as int);
            lemma_zext_val(other.limbs@, n as int);
        }
        let mut i: usize = n;
        while i > 0
            invariant
                i <= n,
                n >= self.limbs@.len(),
                n >= other.limbs@.len(),
                ea == zext(self.limbs@, n as int),
                eb == zext(other.limbs@, n as int),
                forall|j: int|
                    i <= j < n ==> limb_at(self.limbs@, j) == limb_at(other.limbs@, j),
            decreases i,
        {
            let aj = get_limb(&self.limbs, i - 1);
            let bj = get_limb(&other.limbs, i - 1);
            if aj > bj {
                proof {
                    lemma_zext_val(self.limbs@, n as int);
                    lemma_zext_val(other.limbs@, n as int);
                    assert(forall|j: int| 0 <= j < n ==> ea[j] == limb_at(self.limbs@, j));
                    assert(forall|j: int| 0 <= j < n ==> eb[j] == limb_at(other.limbs@, j));
                    lemma_val_gt_at(ea, eb, i - 1);
                }
                return Rel::Gt;
            }
            if aj < bj {
                proof {
                    lemma_zext_val(self.limbs@, n as int);
                    lemma_zext_val(other.limbs@, n as int);
                    assert(forall|j: int| 0 <= j < n ==> ea[j] == limb_at(self.limbs@, j));
                    assert(forall|j: int| 0 <= j < n ==> eb[j] == limb_at(other.limbs@, j));
                    lemma_val_gt_at(eb, ea, i - 1);
                }
                return Rel::Lt;
            }
            i -= 1;
        }
        proof {
            lemma_zext_val(self.limbs@, n as int);
            lemma_zext_val(other.limbs@, n as int);
            assert(forall|j: int| 0 <= j < n ==> ea[j] == limb_at(self.limbs@, j));
            assert(forall|j: int| 0 <= j < n ==> eb[j] == limb_at(other.limbs@, j));
            assert(ea =~= eb);
        }
        Rel::Eq
    }
}

/// The first `i` limbs, or the whole sequence if it is shorter than `i`.
spec fn prefix(s: Seq<u64>, i: int) -> Seq<u64> {
    if i <= s.len() {
        s.take(i)
    } else {
        s
    }
}

proof fn lemma_prefix_step(s: Seq<u64>, i: int)
    requires
        0 <= i,
    ensures
        limbs_val(prefix(s, i + 1)) == limbs_val(prefix(s, i)) + (limb_at(s, i) as nat) * pow2(
            64 * (i as nat),
        ),
{
    if i < s.len() {
        assert(prefix(s, i + 1).drop_last() =~= prefix(s, i));
        assert(prefix(s, i + 1).last() == s[i]);
    } else {
        assert(prefix(s, i + 1) =~= prefix(s, i));
    }
}

proof fn lemma_shl(s: Seq<u64>)
    ensures
        limbs_val(seq![0u64] + s) == limbs_val(s) * pow2(64),
    decreases s.len(),
{
    let u = seq![0u64] + s;
    if s.len() == 0 {
        let z = seq![0u64];
        assert(u =~= z);
        assert(z.drop_last() =~= Seq::<u64>::empty());
        assert(limbs_val(Seq::<u64>::empty()) == 0);
        assert(z.last() == 0u64);
        assert(z.len() == 1);
        assert(limbs_val(z) == limbs_val(z.drop_last()) + (z.last() as nat) * pow2(
            64 * ((z.len() - 1) as nat)));
        assert((z.last() as nat) * pow2(64 * ((z.len() - 1) as nat)) == 0) by (nonlinear_arith)
            requires
                z.last() == 0u64,
        ;
        assert(limbs_val(u) == 0);
        assert(limbs_val(s) * pow2(64) == 0) by (nonlinear_arith)
            requires
                limbs_val(s) == 0,
        ;
    } else {
        lemma_shl(s.drop_last());
        assert(u.drop_last() =~= seq![0u64] + s.drop_last());
        assert(u.last() == s.last());
        lemma_pow2_adds(64 * ((s.len() - 1) as nat), 64);
        let p: nat = pow2(64 * ((s.len() - 1) as nat));
        let bb: nat = pow2(64);
        assert(limbs_val(s.drop_last()) * bb + (s.last() as nat) * (p * bb) == limbs_val(s) * bb)
            by (nonlinear_arith)
            requires
                limbs_val(s) == limbs_val(s.drop_last()) + (s.last() as nat) * p,
        ;
    }
}

} // verus!
