//! Euclid's algorithm on machine integers.

use vstd::prelude::*;
use vstd::arithmetic::div_mod::{lemma_fundamental_div_mod, lemma_mod_multiples_vanish};

verus! {

/// `d` divides `a`.
pub open spec fn divides(d: nat, a: nat) -> bool {
    d > 0 && a % d == 0
}

/// `d` divides both `a` and `b`.
pub open spec fn common_divisor(d: nat, a: nat, b: nat) -> bool {
    divides(d, a) && divides(d, b)
}

/// `g` is the greatest common divisor of `a` and `b`: it divides both, and
/// every number that divides both divides `g` and is therefore no larger.
pub open spec fn is_gcd(g: nat, a: nat, b: nat) -> bool {
    &&& common_divisor(g, a, b)
    &&& forall|d: nat| #[trigger] common_divisor(d, a, b) ==> divides(d, g) && d <= g
}

/// Replacing `m` by `m % n` keeps the divisors that `n` and `m` share.
pub proof fn lemma_remainder_keeps_divisors(d: nat, n: nat, m: nat)
    requires
        d > 0,
        n > 0,
        divides(d, n),
    ensures
        divides(d, m) <==> divides(d, m % n),
{
    let q = (m / n) as int;
    let k = (n / d) as int;
    let r = (m % n) as int;
    lemma_fundamental_div_mod(m as int, n as int);
    lemma_fundamental_div_mod(n as int, d as int);
    assert(n as int == (d as int) * k);
    assert(m as int == (d as int) * (k * q) + r) by (nonlinear_arith)
        requires
            m as int == (n as int) * q + r,
            n as int == (d as int) * k,
    ;
    lemma_mod_multiples_vanish(k * q, r, d as int);
}

/// A positive number that divides another positive number is no larger.
pub proof fn lemma_divisor_is_no_larger(d: nat, a: nat)
    requires
        a > 0,
        divides(d, a),
    ensures
        d <= a,
{
    let k = (a / d) as int;
    lemma_fundamental_div_mod(a as int, d as int);
    assert(a as int == (d as int) * k);
    assert(d <= a) by (nonlinear_arith)
        requires
            a as int == (d as int) * k,
            a > 0,
            d > 0,
            k >= 0,
    ;
}

/// The greatest common divisor of two positive numbers.
pub fn gcd(n: u64, m: u64) -> (g: u64)
    requires
        n != 0,
        m != 0,
    ensures
        is_gcd(g as nat, n as nat, m as nat),
{
    let mut a: u64 = n;
    let mut b: u64 = m;
    while b != 0
        invariant
            a != 0,
            forall|d: nat|
                common_divisor(d, a as nat, b as nat) <==> #[trigger] common_divisor(
                    d,
                    n as nat,
                    m as nat,
                ),
        decreases b,
    {
        if b < a {
            let t: u64 = b;
            b = a;
            a = t;
        }
        proof {
            assert forall|d: nat|
                common_divisor(d, a as nat, (b % a) as nat) <==> #[trigger] common_divisor(
                    d,
                    n as nat,
                    m as nat,
                ) by {
                if d > 0 && divides(d, a as nat) {
                    lemma_remainder_keeps_divisors(d, a as nat, b as nat);
                }
            }
        }
        b = b % a;
    }
    proof {
        assert(common_divisor(a as nat, a as nat, 0nat));
        assert forall|d: nat| #[trigger] common_divisor(d, n as nat, m as nat) implies divides(
            d,
            a as nat,
        ) && d <= a by {
            assert(common_divisor(d, a as nat, b as nat));
            lemma_divisor_is_no_larger(d, a as nat);
        }
    }
    a
}

} // verus!
