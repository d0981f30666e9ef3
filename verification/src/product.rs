//! Exact products of machine integers.
//!
//! Scores compare as ratios of products of example counts. The products can
//! exceed any fixed-width integer, so they are held as little-endian vectors
//! of 64-bit limbs, built by repeated multiplication with a single limb, and
//! compared limb by limb from the most significant end. All comparisons are
//! exact; nothing is rounded.

use vstd::prelude::*;

use vstd::arithmetic::div_mod::lemma_fundamental_div_mod;
use vstd::arithmetic::mul::{
    lemma_mul_by_zero_is_zero, lemma_mul_inequality, lemma_mul_is_associative,
    lemma_mul_is_commutative, lemma_mul_is_distributive_add_other_way, lemma_mul_nonnegative,
    lemma_mul_strictly_positive, lemma_mul_upper_bound,
};
use vstd::arithmetic::power2::{lemma2_to64, lemma2_to64_rest, lemma_pow2_adds, lemma_pow2_pos, pow2};

verus! {

/// How two integers compare.
#[derive(Clone, Copy, Debug, PartialEq, Eq, Structural)]
pub enum Rel {
    /// The left value is smaller.
    Lt,
    /// The values are equal.
    Eq,
    /// The left value is larger.
    Gt,
}

/// The limb of `s` at `i`, with limbs beyond the end reading as zero.
pub open spec fn limb_at(s: Seq<u64>, i: int) -> u64 {
    if 0 <= i < s.len() {
        s[i]
    } else {
        0
    }
}

/// The value of the `k` least significant limbs, little-endian base `2^64`.
pub open spec fn val_upto(s: Seq<u64>, k: int) -> int
    decreases k,
{
    if k <= 0 {
        0
    } else {
        val_upto(s, k - 1) + limb_at(s, k - 1) * pow2((64 * (k - 1)) as nat)
    }
}

/// The value of a limb vector.
pub open spec fn limbs_val(s: Seq<u64>) -> int {
    val_upto(s, s.len() as int)
}

/// The product of the `n` first factors.
pub open spec fn prod_upto(s: Seq<u64>, n: int) -> int
    decreases n,
{
    if n <= 0 {
        1
    } else {
        prod_upto(s, n - 1) * s[n - 1]
    }
}

/// The product of a vector of factors.
pub open spec fn prod(s: Seq<u64>) -> int {
    prod_upto(s, s.len() as int)
}

/// Limb values are nonnegative and bounded by the base power of the width.
proof fn lemma_val_upto_bound(s: Seq<u64>, k: int)
    requires
        0 <= k,
    ensures
        0 <= val_upto(s, k) < pow2((64 * k) as nat),
    decreases k,
{
    lemma_pow2_pos((64 * k) as nat);
    if k > 0 {
        lemma_val_upto_bound(s, k - 1);
        let p = pow2((64 * (k - 1)) as nat) as int;
        lemma_pow2_pos((64 * (k - 1)) as nat);
        lemma_mul_nonnegative(limb_at(s, k - 1) as int, p);
        assert(limb_at(s, k - 1) * p <= 0xffff_ffff_ffff_ffff * p) by {
            lemma_mul_inequality(limb_at(s, k - 1) as int, 0xffff_ffff_ffff_ffff, p);
        }
        assert(pow2((64 * k) as nat) == 0x1_0000_0000_0000_0000 * p) by {
            lemma_pow2_adds(64, (64 * (k - 1)) as nat);
            lemma2_to64_rest();
        }
        assert(val_upto(s, k) < 0x1_0000_0000_0000_0000 * p) by {
            assert(val_upto(s, k - 1) < p);
            assert(0x1_0000_0000_0000_0000 * p == 0xffff_ffff_ffff_ffff * p + p) by {
                lemma_mul_is_distributive_add_other_way(p, 0xffff_ffff_ffff_ffff, 1);
            }
        }
    }
}

/// Two limb vectors that agree on limbs `[i, k)` gather the same value over
/// that range.
proof fn lemma_val_high_eq(a: Seq<u64>, b: Seq<u64>, i: int, k: int)
    requires
        0 <= i <= k,
        forall|j: int| i <= j < k ==> limb_at(a, j) == limb_at(b, j),
    ensures
        val_upto(a, k) - val_upto(a, i) == val_upto(b, k) - val_upto(b, i),
    decreases k - i,
{
    if k > i {
        lemma_val_high_eq(a, b, i, k - 1);
    }
}

/// Two limb vectors that agree on all limbs below `k` have equal values up
/// to `k`.
proof fn lemma_val_low_eq(a: Seq<u64>, b: Seq<u64>, k: int)
    requires
        forall|j: int| 0 <= j < k ==> limb_at(a, j) == limb_at(b, j),
    ensures
        val_upto(a, k) == val_upto(b, k),
    decreases k,
{
    if k > 0 {
        lemma_val_low_eq(a, b, k - 1);
    }
}

/// The value up to `k` only grows with `k` past the end of the vector.
proof fn lemma_val_upto_ext(s: Seq<u64>, k: int)
    requires
        s.len() <= k,
    ensures
        val_upto(s, k) == limbs_val(s),
    decreases k,
{
    if k > s.len() {
        lemma_val_upto_ext(s, k - 1);
        assert(limb_at(s, k - 1) == 0);
    } else {
        assert(k == s.len());
    }
}

/// A strictly smaller limb at `i`, with all higher limbs up to `k` equal,
/// makes the whole value up to `k` strictly smaller.
proof fn lemma_val_lt_at(a: Seq<u64>, b: Seq<u64>, i: int, k: int)
    requires
        0 <= i < k,
        limb_at(a, i) < limb_at(b, i),
        forall|j: int| i < j < k ==> limb_at(a, j) == limb_at(b, j),
    ensures
        val_upto(a, k) < val_upto(b, k),
{
    lemma_val_high_eq(a, b, i + 1, k);
    let p = pow2((64 * i) as nat) as int;
    lemma_pow2_pos((64 * i) as nat);
    lemma_val_upto_bound(a, i);
    lemma_val_upto_bound(b, i);
    let la = limb_at(a, i) as int;
    let lb = limb_at(b, i) as int;
    assert(val_upto(a, i + 1) == val_upto(a, i) + la * p);
    assert(val_upto(b, i + 1) == val_upto(b, i) + lb * p);
    assert(la * p + p == (la + 1) * p) by {
        lemma_mul_is_distributive_add_other_way(p, la, 1);
    }
    assert((la + 1) * p <= lb * p) by {
        lemma_mul_inequality(la + 1, lb, p);
    }
    assert(val_upto(a, i + 1) < val_upto(b, i + 1));
}

/// Multiplies a limb vector in place by a single factor.
pub fn mul_limbs(acc: &mut Vec<u64>, m: u64)
    ensures
        limbs_val(final (acc)@) == limbs_val(old(acc)@) * m,
{
    let ghost orig = old(acc)@;
    let n = acc.len();
    let mut carry: u64 = 0;
    let mut i: usize = 0;
    proof {
        lemma2_to64();
    }
    while i < n
        invariant
            i <= n,
            n == acc@.len(),
            n == orig.len(),
            forall|j: int| i <= j < n ==> acc@[j] == orig[j],
            val_upto(acc@, i as int) + carry * pow2((64 * i) as nat) == val_upto(orig, i as int)
                * m,
        decreases n - i,
    {
        let ghost pre = acc@;
        proof {
            lemma_mul_upper_bound(
                acc@[i as int] as int,
                0xffff_ffff_ffff_ffff,
                m as int,
                0xffff_ffff_ffff_ffff,
            );
        }
        let p: u128 = (acc[i] as u128) * (m as u128) + (carry as u128);
        let low: u64 = (p % 0x1_0000_0000_0000_0000u128) as u64;
        let high: u64 = (p / 0x1_0000_0000_0000_0000u128) as u64;
        proof {
            lemma_fundamental_div_mod(p as int, 0x1_0000_0000_0000_0000);
            assert(p as int == low + high * 0x1_0000_0000_0000_0000) by {
                lemma_mul_is_commutative(high as int, 0x1_0000_0000_0000_0000);
            }
        }
        acc.set(i, low);
        let ghost bigp = pow2((64 * i) as nat) as int;
        proof {
            lemma_pow2_pos((64 * i) as nat);
            lemma_val_low_eq(acc@, pre, i as int);
            assert(val_upto(acc@, i + 1) == val_upto(pre, i as int) + low * bigp);
            assert(pow2((64 * (i + 1)) as nat) == 0x1_0000_0000_0000_0000 * bigp) by {
                lemma_pow2_adds(64, (64 * i) as nat);
                lemma2_to64_rest();
            }
            let base: int = 0x1_0000_0000_0000_0000;
            assert(high * (base * bigp) == (high * base) * bigp) by {
                lemma_mul_is_associative(high as int, base, bigp);
            }
            assert(low * bigp + (high * base) * bigp == (low + high * base) * bigp) by {
                lemma_mul_is_distributive_add_other_way(bigp, low as int, high * base);
            }
            assert((low + high * base) * bigp == (orig[i as int] * m + carry) * bigp);
            assert((orig[i as int] * m + carry) * bigp == (orig[i as int] * m) * bigp + carry
                * bigp) by {
                lemma_mul_is_distributive_add_other_way(bigp, orig[i as int] * m, carry as int);
            }
            assert((orig[i as int] * m) * bigp == (orig[i as int] * bigp) * m) by {
                lemma_mul_is_associative(orig[i as int] as int, m as int, bigp);
                lemma_mul_is_commutative(m as int, bigp);
                lemma_mul_is_associative(orig[i as int] as int, bigp, m as int);
            }
            assert(val_upto(orig, i as int) * m + (orig[i as int] * bigp) * m == (val_upto(
                orig,
                i as int,
            ) + orig[i as int] * bigp) * m) by {
                lemma_mul_is_distributive_add_other_way(
                    m as int,
                    val_upto(orig, i as int),
                    orig[i as int] * bigp,
                );
            }
            assert(val_upto(orig, i + 1) == val_upto(orig, i as int) + orig[i as int] * bigp);
            assert(val_upto(acc@, i + 1) + high * pow2((64 * (i + 1)) as nat) == val_upto(
                orig,
                i + 1,
            ) * m);
        }
        carry = high;
        i = i + 1;
    }
    if carry > 0 {
        let ghost pre = acc@;
        acc.push(carry);
        proof {
            lemma_val_low_eq(acc@, pre, n as int);
            assert(limb_at(acc@, n as int) == carry);
            assert(limbs_val(acc@) == val_upto(pre, n as int) + carry * pow2((64 * n) as nat));
            lemma_val_upto_ext(pre, n as int);
        }
    } else {
        proof {
            assert(limbs_val(acc@) == val_upto(acc@, n as int));
        }
    }
}

/// The product of the factors of `fs`, as a limb vector.
pub fn product_limbs(fs: &Vec<u64>) -> (r: Vec<u64>)
    ensures
        limbs_val(r@) == prod(fs@),
{
    let mut r: Vec<u64> = Vec::new();
    r.push(1);
    proof {
        lemma2_to64();
        assert(val_upto(r@, 0) == 0);
        assert(val_upto(r@, 1) == limb_at(r@, 0) * pow2(0));
        assert(limbs_val(r@) == 1);
        assert(prod_upto(Seq::<u64>::empty(), 0) == 1);
    }
    let mut k: usize = 0;
    while k < fs.len()
        invariant
            k <= fs@.len(),
            limbs_val(r@) == prod_upto(fs@, k as int),
        decreases fs@.len() - k,
    {
        mul_limbs(&mut r, fs[k]);
        k = k + 1;
    }
    r
}

/// Compares the values of two limb vectors.
pub fn cmp_limbs(a: &Vec<u64>, b: &Vec<u64>) -> (r: Rel)
    ensures
        (r == Rel::Lt <==> limbs_val(a@) < limbs_val(b@)),
        (r == Rel::Eq <==> limbs_val(a@) == limbs_val(b@)),
        (r == Rel::Gt <==> limbs_val(a@) > limbs_val(b@)),
{
    let la = a.len();
    let lb = b.len();
    let top = if la > lb {
        la
    } else {
        lb
    };
    proof {
        lemma_val_upto_ext(a@, top as int);
        lemma_val_upto_ext(b@, top as int);
    }
    let mut i: usize = top;
    while i > 0
        invariant
            i <= top,
            la == a@.len(),
            lb == b@.len(),
            la <= top,
            lb <= top,
            limbs_val(a@) == val_upto(a@, top as int),
            limbs_val(b@) == val_upto(b@, top as int),
            forall|j: int| i <= j < top ==> limb_at(a@, j) == limb_at(b@, j),
        decreases i,
    {
        i = i - 1;
        let xa: u64 = if i < la {
            a[i]
        } else {
            0
        };
        let xb: u64 = if i < lb {
            b[i]
        } else {
            0
        };
        if xa < xb {
            proof {
                lemma_val_lt_at(a@, b@, i as int, top as int);
            }
            return Rel::Lt;
        }
        if xa > xb {
            proof {
                lemma_val_lt_at(b@, a@, i as int, top as int);
            }
            return Rel::Gt;
        }
    }
    proof {
        lemma_val_high_eq(a@, b@, 0, top as int);
    }
    Rel::Eq
}

/// Compares the products of two factor vectors exactly.
pub fn cmp_products(xs: &Vec<u64>, ys: &Vec<u64>) -> (r: Rel)
    ensures
        (r == Rel::Lt <==> prod(xs@) < prod(ys@)),
        (r == Rel::Eq <==> prod(xs@) == prod(ys@)),
        (r == Rel::Gt <==> prod(xs@) > prod(ys@)),
{
    let px = product_limbs(xs);
    let py = product_limbs(ys);
    cmp_limbs(&px, &py)
}

/// A product over an appended pair of factor vectors is the product of the
/// products.
pub proof fn lemma_prod_append(s: Seq<u64>, t: Seq<u64>)
    ensures
        prod(s + t) == prod(s) * prod(t),
    decreases t.len(),
{
    if t.len() == 0 {
        assert(s + t =~= s);
        assert(prod(t) == 1);
    } else {
        let t0 = t.drop_last();
        lemma_prod_append(s, t0);
        assert((s + t).drop_last() =~= s + t0);
        assert(prod_upto(s + t, (s + t).len() as int) == prod_upto(s + t, (s + t).len() - 1) * (s
            + t).last());
        assert(prod_upto(s + t, (s + t).len() - 1) == prod(s + t0)) by {
            lemma_prod_prefix_only(s + t, s + t0, (s + t).len() - 1);
        }
        assert((s + t).last() == t.last());
        assert(prod(t) == prod(t0) * t.last()) by {
            lemma_prod_prefix_only(t, t0, t.len() - 1);
        }
        lemma_mul_is_associative(prod(s), prod(t0), t.last() as int);
    }
}

/// The partial product only reads the first `n` factors.
proof fn lemma_prod_prefix_only(a: Seq<u64>, b: Seq<u64>, n: int)
    requires
        0 <= n <= a.len(),
        n <= b.len(),
        forall|j: int| 0 <= j < n ==> a[j] == b[j],
    ensures
        prod_upto(a, n) == prod_upto(b, n),
    decreases n,
{
    if n > 0 {
        lemma_prod_prefix_only(a, b, n - 1);
    }
}

/// A product of factors is positive exactly when every factor is nonzero.
pub proof fn lemma_prod_positive(s: Seq<u64>, n: int)
    requires
        0 <= n <= s.len(),
    ensures
        prod_upto(s, n) >= 0,
        (prod_upto(s, n) > 0 <==> forall|j: int| 0 <= j < n ==> s[j] != 0),
    decreases n,
{
    if n > 0 {
        lemma_prod_positive(s, n - 1);
        let q = prod_upto(s, n - 1);
        let f = s[n - 1] as int;
        lemma_mul_nonnegative(q, f);
        if q > 0 && f > 0 {
            assert(q * f > 0) by {
                lemma_mul_strictly_positive(q, f);
            }
        }
        if f == 0 {
            assert(q * f == 0) by {
                lemma_mul_by_zero_is_zero(q);
            }
        }
        if q == 0 {
            assert(q * f == 0) by {
                lemma_mul_by_zero_is_zero(f);
            }
            assert(exists|j: int| 0 <= j < n - 1 && s[j] == 0);
        }
    }
}

} // verus!
