//! Greatest common divisors over weights.

use vstd::arithmetic::div_mod::{lemma_fundamental_div_mod, lemma_mod_multiples_basic};
use vstd::prelude::*;

verus! {

/// Euclid's greatest common divisor; `gcd_spec(a, 0) == a` and
/// `gcd_spec(0, b) == b`, so a zero is ignored.
pub open spec fn gcd_spec(a: nat, b: nat) -> nat
    decreases b,
{
    if b == 0 {
        a
    } else {
        gcd_spec(b, a % b)
    }
}

/// The greatest common divisor of all nonzero values of `s`, folded from the
/// front; 0 when `s` holds no nonzero value.
pub open spec fn gcd_of_nonzero(s: Seq<u32>) -> nat
    decreases s.len(),
{
    if s.len() == 0 {
        0
    } else {
        gcd_spec(s.last() as nat, gcd_of_nonzero(s.drop_last()))
    }
}

/// `d` divides `x`.
pub open spec fn divides(d: nat, x: nat) -> bool {
    d > 0 && x % d == 0
}

proof fn lemma_divides_combination(g: nat, x: nat, y: nat, k: int, z: nat)
    requires
        divides(g, x),
        divides(g, y),
        z == k * x + y,
    ensures
        divides(g, z),
{
    lemma_fundamental_div_mod(x as int, g as int);
    lemma_fundamental_div_mod(y as int, g as int);
    let u = x as int / g as int;
    let v = y as int / g as int;
    assert(z == (k * u + v) * g) by (nonlinear_arith)
        requires
            x == g * u,
            y == g * v,
            z == k * x + y,
    ;
    lemma_mod_multiples_basic(k * u + v, g as int);
}

/// `gcd_spec(a, b)` is zero only for two zeros; otherwise it divides both,
/// and every common divisor of `a` and `b` divides it.
pub proof fn lemma_gcd_spec(a: nat, b: nat, c: nat)
    ensures
        gcd_spec(a, b) == 0 <==> (a == 0 && b == 0),
        gcd_spec(a, b) > 0 ==> a % gcd_spec(a, b) == 0 && b % gcd_spec(a, b) == 0,
        divides(c, a) && divides(c, b) ==> divides(c, gcd_spec(a, b)),
    decreases b,
{
    if b > 0 {
        let r = a % b;
        let q = a as int / b as int;
        lemma_fundamental_div_mod(a as int, b as int);
        lemma_gcd_spec(b, r, c);
        let g = gcd_spec(b, r);
        // a == q * b + r
        lemma_divides_combination(g, b, r, q, a);
        if divides(c, a) && divides(c, b) {
            assert(r == (-q) * b + a) by (nonlinear_arith)
                requires
                    a == b * q + r,
            ;
            lemma_divides_combination(c, b, a, -q, r);
        }
    } else if a > 0 {
        assert(a % a == 0) by {
            lemma_mod_multiples_basic(1, a as int);
        }
        assert(0nat % a == 0);
    }
}

/// The result of `gcd_for_slice` is the greatest common divisor of the
/// nonzero values: it is zero only when no value is nonzero; otherwise it
/// divides every value, and every common divisor of all values divides it.
pub proof fn lemma_gcd_of_nonzero(s: Seq<u32>, c: nat)
    ensures
        gcd_of_nonzero(s) == 0 <==> (forall|i: int| 0 <= i < s.len() ==> s[i] == 0),
        gcd_of_nonzero(s) > 0 ==> forall|i: int| 0 <= i < s.len() ==> divides(gcd_of_nonzero(s), #[trigger] s[i] as nat),
        (c > 0 && forall|i: int| 0 <= i < s.len() ==> divides(c, #[trigger] s[i] as nat)) ==> divides(
            c,
            gcd_of_nonzero(s),
        ),
    decreases s.len(),
{
    if s.len() > 0 {
        let t = s.drop_last();
        let x = s.last() as nat;
        let gt = gcd_of_nonzero(t);
        let g = gcd_of_nonzero(s);
        lemma_gcd_of_nonzero(t, c);
        lemma_gcd_spec(x, gt, c);
        assert(s[s.len() - 1] == s.last());
        assert forall|i: int| 0 <= i < t.len() implies t[i] == s[i] by {}
        if g == 0 {
            assert forall|i: int| 0 <= i < s.len() implies s[i] == 0 by {
                if i < t.len() {
                    assert(t[i] == s[i]);
                }
            }
        } else {
            assert forall|i: int| 0 <= i < s.len() implies divides(g, #[trigger] s[i] as nat) by {
                if i < t.len() {
                    if gt > 0 {
                        assert(divides(gt, t[i] as nat));
                        lemma_fundamental_div_mod(t[i] as int, gt as int);
                        assert(0nat % g == 0);
                        lemma_divides_combination(g, gt, 0, t[i] as int / gt as int, t[i] as nat);
                    } else {
                        assert(t[i] == 0);
                        assert(0nat % g == 0);
                    }
                }
            }
        }
        if c > 0 && forall|i: int| 0 <= i < s.len() ==> divides(c, #[trigger] s[i] as nat) {
            assert forall|i: int| 0 <= i < t.len() implies divides(c, #[trigger] t[i] as nat) by {
                assert(t[i] == s[i]);
                assert(divides(c, s[i] as nat));
            }
            if gt == 0 {
                assert(0nat % c == 0);
            }
            assert(divides(c, x));
        }
    }
}

/// Greatest common divisor of two positive values.
fn gcd(a: u32, b: u32) -> (r: u32)
    requires
        a > 0,
        b > 0,
    ensures
        r as nat == gcd_spec(a as nat, b as nat),
        r > 0,
    decreases
            if a < b {
                a
            } else {
                b
            },
{
    let (x, y) = if a < b {
        (b, a)
    } else {
        (a, b)
    };
    proof {
        if a < b {
            vstd::arithmetic::div_mod::lemma_small_mod(a as nat, b as nat);
            assert(gcd_spec(a as nat, b as nat) == gcd_spec(b as nat, a as nat));
        }
        assert(gcd_spec(x as nat, y as nat) == gcd_spec(y as nat, (x % y) as nat));
    }
    if x % y == 0 {
        y
    } else {
        gcd(y, x % y)
    }
}

/// Greatest common divisor of the nonzero values of `slice`; zeros are
/// skipped, and a slice with no nonzero value (empty or all zero) gives 0.
pub fn gcd_for_slice(slice: &[u32]) -> (r: u32)
    ensures
        r as nat == gcd_of_nonzero(slice@),
{
    let mut acc: u32 = 0;
    let mut i: usize = 0;
    while i < slice.len()
        invariant
            i <= slice.len(),
            acc as nat == gcd_of_nonzero(slice@.subrange(0, i as int)),
        decreases slice.len() - i,
    {
        let cur = slice[i];
        proof {
            let pre = slice@.subrange(0, i as int + 1);
            assert(pre.drop_last() =~= slice@.subrange(0, i as int));
            assert(pre.last() == cur);
        }
        if cur == 0 {
            proof {
                if acc > 0 {
                    assert(gcd_spec(0, acc as nat) == gcd_spec(acc as nat, 0));
                }
            }
        } else {
            if acc == 0 {
                acc = cur;
            } else {
                acc = gcd(cur, acc);
            }
        }
        i = i + 1;
    }
    assert(slice@.subrange(0, slice@.len() as int) =~= slice@);
    acc
}

} // verus!
