//! Triangular numbers, and their remainders modulo powers of two.

use vstd::prelude::*;

verus! {

/// The `n`th triangular number.
pub open spec fn triangle(n: nat) -> int {
    (n * (n + 1) / 2) as int
}

/// From one triangular number to the next.
pub proof fn lemma_triangle_step(n: nat)
    ensures
        triangle(n + 1) == triangle(n) + n + 1,
        2 * triangle(n) == n * (n + 1),
        triangle(n) >= 0,
    decreases n,
{
    if n == 0 {
        assert(0nat * (0nat + 1) == 0 && 1nat * (1nat + 1) == 2) by (nonlinear_arith);
    } else {
        let before = (n - 1) as nat;
        lemma_triangle_step(before);
        assert(before * (before + 1) + 2 * n == n * (n + 1)) by (nonlinear_arith)
            requires
                n == before + 1,
        ;
    }
    assert((n + 1) * (n + 2) == n * (n + 1) + 2 * (n + 1)) by (nonlinear_arith);
    assert(n * (n + 1) >= 0) by (nonlinear_arith);
}

/// An odd number has no part in a power of two.
proof fn lemma_odd_factor(n: nat, a: int, b: int)
    requires
        a % 2 == 1,
        (a * b) % vstd::arithmetic::power2::pow2(n) as int == 0,
    ensures
        b % vstd::arithmetic::power2::pow2(n) as int == 0,
    decreases n,
{
    vstd::arithmetic::power2::lemma_pow2_pos(n);
    let p = vstd::arithmetic::power2::pow2(n) as int;
    if n == 0 {
        vstd::arithmetic::power2::lemma2_to64();
    } else {
        let half = vstd::arithmetic::power2::pow2((n - 1) as nat) as int;
        vstd::arithmetic::power2::lemma_pow2_unfold(n);
        vstd::arithmetic::power2::lemma_pow2_pos((n - 1) as nat);
        let q = (a * b) / p;
        vstd::arithmetic::div_mod::lemma_fundamental_div_mod(a * b, p);
        assert(a * b == 2 * (half * q)) by (nonlinear_arith)
            requires
                a * b == p * q,
                p == 2 * half,
        ;
        let c = a / 2;
        assert(a * b == 2 * (c * b) + b) by (nonlinear_arith)
            requires
                a == 2 * c + 1,
        ;
        assert(b % 2 == 0);
        let d = b / 2;
        assert(a * d == half * q) by (nonlinear_arith)
            requires
                a * b == 2 * (half * q),
                b == 2 * d,
        ;
        assert(half * q == q * half) by (nonlinear_arith);
        vstd::arithmetic::div_mod::lemma_mod_multiples_basic(q, half);
        lemma_odd_factor((n - 1) as nat, a, d);
        vstd::arithmetic::div_mod::lemma_fundamental_div_mod(d, half);
        let r = d / half;
        assert(b == r * p) by (nonlinear_arith)
            requires
                b == 2 * d,
                d == half * r,
                p == 2 * half,
        ;
        vstd::arithmetic::div_mod::lemma_mod_multiples_basic(r, p);
    }
}

/// The first triangular numbers differ modulo a power of two.
pub proof fn lemma_triangle_injective(n: nat, i: nat, j: nat)
    requires
        j < i < vstd::arithmetic::power2::pow2(n),
    ensures
        triangle(i) % vstd::arithmetic::power2::pow2(n) as int != triangle(j)
            % vstd::arithmetic::power2::pow2(n) as int,
{
    let m = vstd::arithmetic::power2::pow2(n) as int;
    vstd::arithmetic::power2::lemma_pow2_pos(n);
    vstd::arithmetic::power2::lemma_pow2_unfold(n + 1);
    lemma_triangle_step(i);
    lemma_triangle_step(j);
    if triangle(i) % m == triangle(j) % m {
        let a = i - j;
        let b = i + j + 1;
        let d = triangle(i) - triangle(j);
        assert(a * b == 2 * d) by (nonlinear_arith)
            requires
                a == i - j,
                b == i + j + 1,
                2 * triangle(i) == i * (i + 1),
                2 * triangle(j) == j * (j + 1),
                d == triangle(i) - triangle(j),
        ;
        vstd::arithmetic::div_mod::lemma_mod_equivalence(triangle(i), triangle(j), m);
        assert(d % m == 0);
        let q = d / m;
        vstd::arithmetic::div_mod::lemma_fundamental_div_mod(d, m);
        assert(a * b == q * (2 * m)) by (nonlinear_arith)
            requires
                a * b == 2 * d,
                d == m * q,
        ;
        vstd::arithmetic::div_mod::lemma_mod_multiples_basic(q, 2 * m);
        if a % 2 == 1 {
            lemma_odd_factor(n + 1, a, b as int);
            vstd::arithmetic::div_mod::lemma_small_mod(b as nat, (2 * m) as nat);
        } else {
            assert(b % 2 == 1);
            assert(b * a == a * b) by (nonlinear_arith);
            lemma_odd_factor(n + 1, b as int, a);
            vstd::arithmetic::div_mod::lemma_small_mod(a as nat, (2 * m) as nat);
        }
        assert(false);
    }
}

/// Every remainder modulo a power of two is that of one of the first triangular
/// numbers.
pub proof fn lemma_triangle_surjective(n: nat, remainder: int) -> (step: nat)
    requires
        0 <= remainder < vstd::arithmetic::power2::pow2(n),
    ensures
        step < vstd::arithmetic::power2::pow2(n),
        triangle(step) % vstd::arithmetic::power2::pow2(n) as int == remainder,
{
    let m = vstd::arithmetic::power2::pow2(n) as int;
    let remainders = Seq::new(m as nat, |i: int| triangle(i as nat) % m);
    assert(remainders.no_duplicates()) by {
        assert forall|i: int, j: int|
            0 <= i < remainders.len() && 0 <= j < remainders.len() && i != j implies remainders[i]
            != remainders[j] by {
            if j < i {
                lemma_triangle_injective(n, i as nat, j as nat);
            } else {
                lemma_triangle_injective(n, j as nat, i as nat);
            }
        }
    }
    remainders.unique_seq_to_set();
    let range = vstd::set_lib::set_int_range(0, m);
    vstd::set_lib::lemma_int_range(0, m);
    assert(remainders.to_set().subset_of(range)) by {
        assert forall|r: int| remainders.to_set().contains(r) implies range.contains(r) by {
            let i = choose|i: int| 0 <= i < remainders.len() && remainders[i] == r;
            vstd::arithmetic::div_mod::lemma_mod_bound(triangle(i as nat), m);
        }
    }
    vstd::set_lib::lemma_subset_equality(remainders.to_set(), range);
    assert(remainders.to_set().contains(remainder));
    let i = choose|i: int| 0 <= i < remainders.len() && remainders[i] == remainder;
    i as nat
}

} // verus!
