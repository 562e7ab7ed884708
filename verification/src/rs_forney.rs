//! Forney's formula: the error value of a located byte is its locator times
//! the error evaluator over the locator's derivative, both at the root.
use vstd::prelude::*;
use crate::gf_laws::{
    law_gf_div_mul, law_gf_mul_associative, law_gf_mul_commutative, law_gf_mul_distributive, law_gf_mul_unit,
    lemma_alpha_mod, lemma_log_two, lemma_mul_exponent, lemma_mul_powers, lemma_powers_distinct, lemma_xor_facts,
};
use crate::rs_distance::{
    differs_only_at, lemma_ascending_power, lemma_pow_of_two, lemma_syndrome_terms, lemma_times_linear_eval,
    lemma_xsum_ext, lemma_xsum_scale, lemma_xsum_shift, lemma_xsum_single, lemma_xsum_swap, lemma_xsum_xor,
    locator, positions_in, times_linear, xsum,
};
use crate::rs_field::{alpha_pow, gf_div, gf_mul, gf_pow};
use crate::rs_laws::{coef, lemma_disc_as_sum};
use crate::rs_code::{clean, disc, generates, syndrome};
use crate::rs_locate::{
    error_word, law_locator_vanishes_at_damage, lemma_disc_weighted, lemma_error_syndromes, lemma_power_add,
    lemma_quotient_times, lemma_root_count, lemma_xsum_reverse, quotient, reversed_eval, weighted,
};
use crate::rs_poly::{conv_upto, derivative, eval_ascending, gf_power, poly_product};

verus! {

/// Term `i` of `c` at `y`: `c[i] * y^i`, 0 past the end of `c`.
pub open spec fn cterm(c: Seq<u8>, y: u8, i: int) -> u8 {
    gf_mul(coef(c, i), gf_power(y, i as nat))
}

/// The first `k` terms of `c` at `y`.
pub open spec fn ceval(c: Seq<u8>, y: u8, k: nat) -> u8 {
    xsum(|i: int| cterm(c, y, i), k)
}

/// The first `k` terms of `c` at `y` whose degree has parity `par`.
pub open spec fn parity_part(c: Seq<u8>, y: u8, k: nat, par: int) -> u8 {
    xsum(|i: int| if i % 2 == par { cterm(c, y, i) } else { 0u8 }, k)
}

/// The sum of the values of the first `1`, `2`, ..., `k` terms of `c` at `y`.
pub open spec fn prefix_sums(c: Seq<u8>, y: u8, k: nat) -> u8 {
    xsum(|m: int| ceval(c, y, (m + 1) as nat), k)
}

/// The value of the first `k` terms splits into even and odd degrees.
proof fn lemma_parity_split(c: Seq<u8>, y: u8, k: nat)
    ensures
        ceval(c, y, k) == parity_part(c, y, k, 0) ^ parity_part(c, y, k, 1),
    decreases k,
{
    lemma_xor_facts(0, 0, 0, 0);
    if k > 0 {
        let m = (k - 1) as nat;
        lemma_parity_split(c, y, m);
        let t = cterm(c, y, m as int);
        let e = parity_part(c, y, m, 0);
        let o = parity_part(c, y, m, 1);
        lemma_xor_facts(e, o, t, 0);
        lemma_xor_facts(e, t, o, 0);
        lemma_xor_facts(t, 0, 0, 0);
        lemma_xor_facts(e, 0, 0, 0);
        lemma_xor_facts(o, 0, 0, 0);
        lemma_xor_facts(o, t, 0, 0);
        lemma_xor_facts(e, o ^ t, 0, 0);
        lemma_xor_facts(e ^ t, o, 0, 0);
        assert(ceval(c, y, k) == ceval(c, y, m) ^ t);
        assert(parity_part(c, y, k, 0) == e ^ (if m % 2 == 0 { t } else { 0u8 }));
        assert(parity_part(c, y, k, 1) == o ^ (if m % 2 == 1 { t } else { 0u8 }));
    }
}

/// The prefix sums keep the terms whose distance to `k` is odd: the odd
/// degrees for even `k`, the even degrees for odd `k`.
proof fn lemma_prefix_sums_parity(c: Seq<u8>, y: u8, k: nat)
    ensures
        prefix_sums(c, y, k) == parity_part(c, y, k, ((k + 1) % 2) as int),
    decreases k,
{
    lemma_xor_facts(0, 0, 0, 0);
    if k > 0 {
        let m = (k - 1) as nat;
        lemma_prefix_sums_parity(c, y, m);
        lemma_parity_split(c, y, k);
        let t = cterm(c, y, m as int);
        let e = parity_part(c, y, m, 0);
        let o = parity_part(c, y, m, 1);
        assert(prefix_sums(c, y, k) == prefix_sums(c, y, m) ^ ceval(c, y, k));
        assert(parity_part(c, y, k, 0) == e ^ (if m % 2 == 0 { t } else { 0u8 }));
        assert(parity_part(c, y, k, 1) == o ^ (if m % 2 == 1 { t } else { 0u8 }));
        lemma_xor_facts(e, e, o, 0);
        lemma_xor_facts(o, o, e, 0);
        lemma_xor_facts(e, o, 0, 0);
        lemma_xor_facts(e, e ^ t, o, 0);
        lemma_xor_facts(o, e, o ^ t, 0);
        lemma_xor_facts(e, e, o ^ t, 0);
        lemma_xor_facts(o, o, e ^ t, 0);
        lemma_xor_facts(o ^ t, 0, 0, 0);
        lemma_xor_facts(e ^ t, 0, 0, 0);
        lemma_xor_facts(t, 0, 0, 0);
        lemma_xor_facts(o, e, t, 0);
        lemma_xor_facts(e, o, t, 0);
        if m % 2 == 0 {
            // k odd: even part; e ^ (e ^ t ^ o ^ 0)... = e ^ t
            assert(prefix_sums(c, y, m) == o);
            assert(parity_part(c, y, k, 0) == e ^ t);
            assert(parity_part(c, y, k, 1) == o ^ 0u8);
            assert(o ^ ((e ^ t) ^ o) == e ^ t) by {
                lemma_xor_facts(e ^ t, o, 0, 0);
                lemma_xor_facts(o, o, e ^ t, 0);
                lemma_xor_facts(o, o, 0, 0);
                lemma_xor_facts(e ^ t, 0, 0, 0);
                assert(o ^ (o ^ (e ^ t)) == (o ^ o) ^ (e ^ t));
            }
        } else {
            assert(prefix_sums(c, y, m) == e);
            assert(parity_part(c, y, k, 0) == e ^ 0u8);
            assert(parity_part(c, y, k, 1) == o ^ t);
            assert(e ^ (e ^ (o ^ t)) == o ^ t) by {
                lemma_xor_facts(e, e, o ^ t, 0);
                assert(e ^ (e ^ (o ^ t)) == (e ^ e) ^ (o ^ t));
                lemma_xor_facts(o ^ t, 0, 0, 0);
            }
        }
    }
}


/// Terms past the end of `c` add nothing.
proof fn lemma_tail_terms(c: Seq<u8>, y: u8, k: nat)
    requires
        k >= c.len(),
    ensures
        ceval(c, y, k) == ceval(c, y, c.len()),
        parity_part(c, y, k, 0) == parity_part(c, y, c.len(), 0),
        parity_part(c, y, k, 1) == parity_part(c, y, c.len(), 1),
    decreases k,
{
    if k > c.len() {
        let m = (k - 1) as nat;
        lemma_tail_terms(c, y, m);
        law_gf_mul_unit(gf_power(y, m));
        assert(cterm(c, y, m as int) == 0);
        lemma_xor_facts(ceval(c, y, m), 0, 0, 0);
        lemma_xor_facts(parity_part(c, y, m, 0), 0, 0, 0);
        lemma_xor_facts(parity_part(c, y, m, 1), 0, 0, 0);
        assert(ceval(c, y, k) == ceval(c, y, m) ^ cterm(c, y, m as int));
    }
}

/// Within `c`, the terms are those of its value.
proof fn lemma_ceval_is_eval(c: Seq<u8>, y: u8)
    ensures
        ceval(c, y, c.len()) == eval_ascending(c, y, c.len()),
{
    lemma_ascending_power(c, y, c.len());
    lemma_xsum_ext(|i: int| cterm(c, y, i), |i: int| gf_mul(c[i], gf_power(y, i as nat)), c.len());
}

/// `y` times the derivative at `y` is the odd part of `c` at `y`.
proof fn lemma_derivative_odd(c: Seq<u8>, y: u8)
    requires
        c.len() >= 1,
    ensures
        gf_mul(y, eval_ascending(derivative(c), y, derivative(c).len())) == parity_part(c, y, c.len(), 1),
{
    let d = derivative(c);
    let g = |i: int| if i % 2 == 1 { cterm(c, y, i) } else { 0u8 };
    if c.len() == 1 {
        law_gf_mul_unit(y);
        law_gf_mul_unit(gf_power(y, 0));
        lemma_xor_facts(0, 0, 0, 0);
        assert(eval_ascending(d, y, 0) == 0);
        assert(eval_ascending(d, y, 1) == 0u8 ^ gf_mul(0u8, gf_power(y, 0)));
        assert(parity_part(c, y, 1, 1) == xsum(g, 0) ^ g(0));
    } else {
        let l = d.len();
        lemma_ascending_power(d, y, l);
        let f = |j: int| gf_mul(d[j], gf_power(y, j as nat));
        let h = |j: int| g(j + 1);
        assert forall|j: int| 0 <= j < l implies #[trigger] h(j) == gf_mul(y, f(j)) by {
            assert(gf_power(y, (j + 1) as nat) == gf_mul(gf_power(y, j as nat), y));
            law_gf_mul_associative(d[j], gf_power(y, j as nat), y);
            law_gf_mul_commutative(y, f(j));
            law_gf_mul_unit(gf_power(y, (j + 1) as nat));
            law_gf_mul_unit(y);
            if j % 2 == 0 {
                assert(d[j] == c[j + 1]);
                assert((j + 1) % 2 == 1);
            } else {
                assert(d[j] == 0);
                assert((j + 1) % 2 == 0);
                law_gf_mul_unit(gf_power(y, j as nat));
            }
        }
        lemma_xsum_scale(f, h, y, l);
        lemma_xsum_shift(g, h, l);
    }
}

/// At a root `y` of `c`, the prefix sums of `c` (over at least its length)
/// are `y` times the derivative at `y`.
proof fn lemma_prefix_sums_at_root(c: Seq<u8>, y: u8, k: nat)
    requires
        c.len() >= 1,
        k >= c.len(),
        eval_ascending(c, y, c.len()) == 0,
    ensures
        prefix_sums(c, y, k) == gf_mul(y, eval_ascending(derivative(c), y, derivative(c).len())),
{
    lemma_prefix_sums_parity(c, y, k);
    lemma_tail_terms(c, y, k);
    lemma_derivative_odd(c, y);
    lemma_parity_split(c, y, c.len());
    lemma_ceval_is_eval(c, y);
    let e = parity_part(c, y, c.len(), 0);
    let o = parity_part(c, y, c.len(), 1);
    lemma_xor_facts(e, o, o, 0);
    lemma_xor_facts(e, 0, 0, 0);
    lemma_xor_facts(o, 0, 0, 0);
    lemma_xor_facts(0, o, 0, 0);
    if (k + 1) % 2 == 0 {
        assert(e == (e ^ o) ^ o);
    }
}


/// Read backwards one coefficient further: `x` times the value so far plus
/// the next coefficient.
proof fn lemma_reversed_step(c: Seq<u8>, k: nat, x: u8)
    ensures
        reversed_eval(c, k + 1, x) == gf_mul(x, reversed_eval(c, k, x)) ^ coef(c, (k + 1) as int),
{
    let f = |i: int| gf_mul(coef(c, i), gf_power(x, (k - i) as nat));
    let g = |i: int| gf_mul(coef(c, i), gf_power(x, (k + 1 - i) as nat));
    assert forall|i: int| 0 <= i < k + 1 implies #[trigger] g(i) == gf_mul(x, f(i)) by {
        assert(gf_power(x, (k + 1 - i) as nat) == gf_mul(gf_power(x, (k - i) as nat), x));
        law_gf_mul_associative(coef(c, i), gf_power(x, (k - i) as nat), x);
        law_gf_mul_commutative(x, f(i));
    }
    lemma_xsum_scale(f, g, x, k + 1);
    law_gf_mul_unit(coef(c, (k + 1) as int));
    assert(g((k + 1) as int) == gf_mul(coef(c, (k + 1) as int), gf_power(x, 0)));
    assert(reversed_eval(c, k + 1, x) == xsum(g, k + 1) ^ g((k + 1) as int));
}

/// Past the end of `c`, reading backwards further only multiplies by `x`;
/// so it stays 0 once it is.
proof fn lemma_reversed_tail(c: Seq<u8>, m: nat, x: u8)
    requires
        m + 1 >= c.len(),
        c.len() >= 1,
        reversed_eval(c, (c.len() - 1) as nat, x) == 0,
    ensures
        reversed_eval(c, m, x) == 0,
    decreases m,
{
    if m + 1 > c.len() {
        let m1 = (m - 1) as nat;
        lemma_reversed_tail(c, m1, x);
        lemma_reversed_step(c, m1, x);
        law_gf_mul_unit(x);
        lemma_xor_facts(0, 0, 0, 0);
    }
}

/// The weighted sum of `y^k` times `c` read backwards to `k`, at `x`.
pub open spec fn gsum(c: Seq<u8>, x: u8, y: u8, k: nat) -> u8 {
    xsum(|m: int| gf_mul(gf_power(y, m as nat), reversed_eval(c, m as nat, x)), k)
}

/// `(1 + x y)` times the weighted sum telescopes to the first `k` terms of
/// `c` at `y` plus `y^k x` times `c` read backwards to `k - 1`.
proof fn lemma_gsum_telescopes(c: Seq<u8>, x: u8, y: u8, k: nat)
    requires
        k >= 1,
    ensures
        gf_mul(1u8 ^ gf_mul(x, y), gsum(c, x, y, k)) == ceval(c, y, k) ^ gf_mul(
            gf_power(y, k),
            gf_mul(x, reversed_eval(c, (k - 1) as nat, x)),
        ),
    decreases k,
{
    let z = gf_mul(x, y);
    let a = 1u8 ^ z;
    if k == 1 {
        let c0 = coef(c, 0);
        assert(reversed_eval(c, 0, x) == xsum(|i: int| gf_mul(coef(c, i), gf_power(x, (0 - i) as nat)), 0) ^ gf_mul(c0, gf_power(x, 0)));
        law_gf_mul_unit(c0);
        lemma_xor_facts(c0, 0, 0, 0);
        lemma_xor_facts(0, 0, 0, 0);
        let r0 = reversed_eval(c, 0, x);
        assert(r0 == c0);
        let gf = |m: int| gf_mul(gf_power(y, m as nat), reversed_eval(c, m as nat, x));
        assert(gsum(c, x, y, 1) == xsum(gf, 1));
        assert(xsum(gf, 1) == xsum(gf, 0) ^ gf(0));
        assert(gsum(c, x, y, 1) == 0u8 ^ gf_mul(gf_power(y, 0), r0));
        law_gf_mul_unit(r0);
        let tf = |i: int| cterm(c, y, i);
        assert(ceval(c, y, 1) == xsum(tf, 1));
        assert(xsum(tf, 1) == xsum(tf, 0) ^ tf(0));
        assert(ceval(c, y, 1) == 0u8 ^ cterm(c, y, 0));
        law_gf_mul_unit(gf_power(y, 0));
        assert(gf_power(y, 1) == gf_mul(1u8, y));
        law_gf_mul_unit(y);
        law_gf_mul_distributive(c0, 1, z);
        law_gf_mul_commutative(a, c0);
        law_gf_mul_commutative(c0, z);
        law_gf_mul_associative(x, y, c0);
        law_gf_mul_commutative(y, gf_mul(x, c0));
        law_gf_mul_associative(y, x, c0);
        law_gf_mul_commutative(x, y);
    } else {
        let m = (k - 1) as nat;
        lemma_gsum_telescopes(c, x, y, m);
        let g = gsum(c, x, y, m);
        let ym = gf_power(y, m);
        let rm = reversed_eval(c, m, x);
        let rm1 = reversed_eval(c, (m - 1) as nat, x);
        let cm = coef(c, m as int);
        let w = gf_mul(ym, rm);
        assert(gsum(c, x, y, k) == g ^ w);
        assert(ceval(c, y, k) == ceval(c, y, m) ^ cterm(c, y, m as int));
        lemma_reversed_step(c, (m - 1) as nat, x);
        assert(rm == gf_mul(x, rm1) ^ cm);
        // a (g ^ w) = a g ^ a w, and a w = w ^ z w.
        law_gf_mul_distributive(a, g, w);
        law_gf_mul_commutative(a, w);
        law_gf_mul_distributive(w, 1, z);
        law_gf_mul_unit(w);
        law_gf_mul_commutative(w, z);
        // w = ym x rm1 ^ ym cm.
        law_gf_mul_distributive(ym, gf_mul(x, rm1), cm);
        // z w = y^k x rm.
        assert(gf_power(y, k) == gf_mul(ym, y));
        law_gf_mul_associative(x, y, w);
        law_gf_mul_associative(y, ym, rm);
        law_gf_mul_commutative(y, ym);
        law_gf_mul_associative(gf_mul(ym, y), x, rm);
        law_gf_mul_commutative(x, gf_mul(gf_mul(ym, y), rm));
        law_gf_mul_associative(gf_mul(ym, y), rm, x);
        law_gf_mul_commutative(rm, x);
        law_gf_mul_commutative(x, gf_mul(y, w));
        law_gf_mul_commutative(ym, cm);
        // Collect the xors.
        let ac = ceval(c, y, m);
        let p = gf_mul(ym, gf_mul(x, rm1));
        let q = gf_mul(ym, cm);
        let t = gf_mul(gf_power(y, k), gf_mul(x, rm));
        assert(gf_mul(z, w) == t);
        assert(gf_mul(a, g) == ac ^ p);
        assert(w == p ^ q);
        assert(gf_mul(a, w) == w ^ t);
        assert(cterm(c, y, m as int) == q);
        lemma_xor_facts(ac ^ p, p ^ q, t, 0);
        lemma_xor_facts(ac, p, p ^ q, 0);
        lemma_xor_facts(p, p, q, 0);
        lemma_xor_facts(p, 0, 0, 0);
        lemma_xor_facts(q, 0, 0, 0);
        lemma_xor_facts(ac, q, t, 0);
        assert(p ^ (p ^ q) == q) by {
            lemma_xor_facts(p, p, q, 0);
        }
        assert((ac ^ p) ^ (p ^ q) == ac ^ q);
        assert(((ac ^ p) ^ ((p ^ q) ^ t)) == (ac ^ q) ^ t) by {
            lemma_xor_facts(ac ^ p, p ^ q, t, 0);
        }
    }
}


/// Powers of a product are products of powers.
proof fn lemma_power_of_product(x: u8, y: u8, n: nat)
    ensures
        gf_mul(gf_power(x, n), gf_power(y, n)) == gf_power(gf_mul(x, y), n),
    decreases n,
{
    if n == 0 {
        law_gf_mul_unit(1);
    } else {
        let m = (n - 1) as nat;
        lemma_power_of_product(x, y, m);
        let a = gf_power(x, m);
        let b = gf_power(y, m);
        // (a x)(b y) = (a b)(x y)
        law_gf_mul_associative(a, x, gf_mul(b, y));
        law_gf_mul_associative(x, b, y);
        law_gf_mul_commutative(x, b);
        law_gf_mul_associative(b, x, y);
        law_gf_mul_associative(a, b, gf_mul(x, y));
    }
}

/// 1 to any power is 1.
proof fn lemma_power_of_one(n: nat)
    ensures
        gf_power(1, n) == 1,
    decreases n,
{
    if n > 0 {
        lemma_power_of_one((n - 1) as nat);
        law_gf_mul_unit(1);
    }
}

/// Where `x y = 1`, the weighted sum is the prefix sums of `c` at `y`.
proof fn lemma_gsum_same_root(c: Seq<u8>, x: u8, y: u8, k: nat)
    requires
        gf_mul(x, y) == 1,
    ensures
        gsum(c, x, y, k) == prefix_sums(c, y, k),
{
    let f = |m: int| gf_mul(gf_power(y, m as nat), reversed_eval(c, m as nat, x));
    let g = |m: int| ceval(c, y, (m + 1) as nat);
    assert forall|m: int| 0 <= m < k implies #[trigger] f(m) == g(m) by {
        let mm = m as nat;
        let ym = gf_power(y, mm);
        let h = |i: int| gf_mul(coef(c, i), gf_power(x, (mm - i) as nat));
        let hy = |i: int| gf_mul(ym, h(i));
        lemma_xsum_scale(h, hy, ym, mm + 1);
        assert forall|i: int| 0 <= i < mm + 1 implies #[trigger] hy(i) == cterm(c, y, i) by {
            let d = (mm - i) as nat;
            lemma_power_add(y, i as nat, d);
            assert(i as nat + d == mm);
            lemma_power_of_product(y, x, d);
            law_gf_mul_commutative(y, x);
            lemma_power_of_one(d);
            let yi = gf_power(y, i as nat);
            let yd = gf_power(y, d);
            let xd = gf_power(x, d);
            // ym * (ci * xd) = ci * (yi * (yd * xd)) = ci * yi
            law_gf_mul_associative(yi, yd, xd);
            law_gf_mul_unit(yi);
            law_gf_mul_associative(ym, coef(c, i), xd);
            law_gf_mul_commutative(ym, coef(c, i));
            law_gf_mul_associative(coef(c, i), ym, xd);
        }
        lemma_xsum_ext(hy, |i: int| cterm(c, y, i), mm + 1);
    }
    lemma_xsum_ext(f, g, k);
}

/// Where `c` vanishes at `y` and, read backwards, at `x`, with `x y` not 1,
/// the weighted sum over at least the length of `c` is 0.
proof fn lemma_gsum_other_root(c: Seq<u8>, x: u8, y: u8, k: nat)
    requires
        c.len() >= 1,
        k >= c.len(),
        eval_ascending(c, y, c.len()) == 0,
        reversed_eval(c, (c.len() - 1) as nat, x) == 0,
        gf_mul(x, y) != 1,
    ensures
        gsum(c, x, y, k) == 0,
{
    lemma_gsum_telescopes(c, x, y, k);
    lemma_tail_terms(c, y, k);
    lemma_ceval_is_eval(c, y);
    lemma_reversed_tail(c, (k - 1) as nat, x);
    law_gf_mul_unit(x);
    law_gf_mul_unit(gf_power(y, k));
    lemma_xor_facts(0, 0, 0, 0);
    let z = gf_mul(x, y);
    lemma_xor_facts(1u8, z, 1u8, 0);
    lemma_xor_facts(z, 0, 0, 0);
    lemma_xor_facts(1u8, 0, 0, 0);
    if 1u8 ^ z == 0 {
        assert(z == (1u8 ^ z) ^ 1u8) by {
            lemma_xor_facts(1u8, z, 1u8, 0);
            lemma_xor_facts(1u8, 1u8, z, 0);
            lemma_xor_facts(z, 1u8, 0, 0);
        }
    }
    if gsum(c, x, y, k) != 0 {
        lemma_mul_exponent(1u8 ^ z, gsum(c, x, y, k));
    }
}


/// A sum whose terms from `a` on are 0 stops at `a`.
proof fn lemma_xsum_stop(f: spec_fn(int) -> u8, a: nat, b: nat)
    requires
        a <= b,
        forall|i: int| a <= i < b ==> #[trigger] f(i) == 0,
    ensures
        xsum(f, b) == xsum(f, a),
    decreases b,
{
    if b > a {
        lemma_xsum_stop(f, a, (b - 1) as nat);
        lemma_xor_facts(xsum(f, (b - 1) as nat), 0, 0, 0);
    }
}

/// A product coefficient is the sum of its terms.
proof fn lemma_conv_as_sum(a: Seq<u8>, b: Seq<u8>, k: int, n: nat)
    ensures
        conv_upto(a, b, k, n) == xsum(
            |m: int| if 0 <= k - m < b.len() { gf_mul(a[m], b[k - m]) } else { 0u8 },
            n,
        ),
    decreases n,
{
    if n > 0 {
        lemma_conv_as_sum(a, b, k, (n - 1) as nat);
    }
}

/// Coefficient `k` of the product of the syndromes `s` and `c`, below the
/// number of syndromes, is the combination `c` forms at `k` from all of them.
proof fn lemma_omega_coef(s: Seq<u8>, c: Seq<u8>, k: int)
    requires
        0 <= k < s.len(),
    ensures
        conv_upto(s, c, k, s.len()) == disc(c, s, k, (k + 1) as nat),
{
    let kk = (k + 1) as nat;
    let cf = |m: int| if 0 <= k - m < c.len() { gf_mul(s[m], c[k - m]) } else { 0u8 };
    lemma_conv_as_sum(s, c, k, s.len());
    lemma_xsum_stop(cf, kk, s.len());
    lemma_xsum_reverse(cf, kk);
    lemma_disc_as_sum(c, s, k, kk);
    assert forall|i: int| 0 <= i < kk implies #[trigger] cf(kk - 1 - i) == gf_mul(coef(c, i), coef(s, k - i)) by {
        assert(kk - 1 - i == k - i);
        law_gf_mul_commutative(s[k - i], coef(c, i));
        law_gf_mul_unit(coef(s, k - i));
    }
    lemma_xsum_ext(|i: int| cf(kk - 1 - i), |i: int| gf_mul(coef(c, i), coef(s, k - i)), kk);
}

/// The value at `y` of the product of the syndromes of `e` and `c`, cut to
/// the number of syndromes, is the sum over the bytes of `e` of each byte
/// times the weighted sum at its locator.
proof fn lemma_omega_value(e: Seq<u8>, s: Seq<u8>, c: Seq<u8>, y: u8)
    requires
        s.len() >= 1,
        c.len() >= 1,
        forall|i: int| 0 <= i < s.len() ==> #[trigger] s[i] == syndrome(e, i),
    ensures
        eval_ascending(poly_product(s, c).take(s.len() as int), y, s.len()) == xsum(
            |t: int| gf_mul(e[t], gsum(c, locator(e.len(), t), y, s.len())),
            e.len(),
        ),
{
    let n = e.len();
    let ks = s.len();
    let om = poly_product(s, c).take(ks as int);
    let term = |k: int, t: int| gf_mul(gf_power(y, k as nat), gf_mul(e[t], reversed_eval(c, k as nat, locator(n, t))));
    lemma_ascending_power(om, y, ks);
    let rows = |k: int| xsum(|t: int| term(k, t), n);
    assert forall|k: int| 0 <= k < ks implies #[trigger] rows(k) == gf_mul(om[k], gf_power(y, k as nat)) by {
        lemma_omega_coef(s, c, k);
        assert(om[k] == conv_upto(s, c, k, ks));
        lemma_disc_weighted(c, e, s, k as nat, k);
        let v = weighted(e, c, k as nat);
        lemma_syndrome_terms(v, 0);
        assert forall|t: int| 0 <= t < n implies #[trigger] gf_mul(v[t], gf_power(locator(n, t), 0)) == gf_mul(
            e[t],
            reversed_eval(c, k as nat, locator(n, t)),
        ) by {
            law_gf_mul_unit(v[t]);
        }
        lemma_xsum_ext(
            |t: int| gf_mul(v[t], gf_power(locator(n, t), 0)),
            |t: int| gf_mul(e[t], reversed_eval(c, k as nat, locator(n, t))),
            n,
        );
        lemma_xsum_scale(
            |t: int| gf_mul(e[t], reversed_eval(c, k as nat, locator(n, t))),
            |t: int| term(k, t),
            gf_power(y, k as nat),
            n,
        );
        law_gf_mul_commutative(om[k], gf_power(y, k as nat));
    }
    lemma_xsum_ext(rows, |k: int| gf_mul(om[k], gf_power(y, k as nat)), ks);
    lemma_xsum_swap(term, ks, n);
    let cols = |t: int| xsum(|k: int| term(k, t), ks);
    assert forall|t: int| 0 <= t < n implies #[trigger] cols(t) == gf_mul(e[t], gsum(c, locator(n, t), y, ks)) by {
        let x = locator(n, t);
        let gk = |k: int| gf_mul(gf_power(y, k as nat), reversed_eval(c, k as nat, x));
        assert forall|k: int| 0 <= k < ks implies #[trigger] term(k, t) == gf_mul(e[t], gk(k)) by {
            let yk = gf_power(y, k as nat);
            let r = reversed_eval(c, k as nat, x);
            law_gf_mul_associative(yk, e[t], r);
            law_gf_mul_associative(e[t], yk, r);
            law_gf_mul_commutative(yk, e[t]);
        }
        lemma_xsum_scale(gk, |k: int| term(k, t), e[t], ks);
    }
    lemma_xsum_ext(cols, |t: int| gf_mul(e[t], gsum(c, locator(n, t), y, ks)), n);
}


/// The root the Chien search tries at position `p` of a word of `n` bytes
/// times the position's locator is 1.
pub proof fn lemma_root_times_locator(n: nat, p: int)
    requires
        0 <= p < n <= 255,
    ensures
        gf_mul(locator(n, p), gf_pow(2, -(n - 1 - p))) == 1,
        gf_pow(2, n - 1 - p) == locator(n, p),
{
    let e = (n - 1 - p) as nat;
    let f = ((255 - e % 255) % 255) as nat;
    lemma_log_two();
    assert(gf_pow(2, -(n - 1 - p)) == alpha_pow(f)) by {
        if e == 0 {
            assert(f == 0);
        }
    }
    lemma_pow_of_two(e);
    lemma_mul_powers(e, f);
    lemma_alpha_mod(e + f);
    assert((e + f) % 255 == 0);
    assert(alpha_pow(0) == 1);
}

/// Two bytes whose products with a non-zero byte agree are equal.
proof fn lemma_mul_cancel(a: u8, b: u8, d: u8)
    requires
        d != 0,
        gf_mul(a, d) == gf_mul(b, d),
    ensures
        a == b,
{
    law_gf_mul_commutative(d, a);
    law_gf_mul_commutative(d, b);
    law_gf_mul_distributive(d, a, b);
    lemma_xor_facts(gf_mul(d, a), 0, 0, 0);
    lemma_xor_facts(a, b, b, 0);
    lemma_xor_facts(b, 0, 0, 0);
    if a ^ b != 0 {
        lemma_mul_exponent(d, a ^ b);
    }
    assert(a ^ b == 0 ==> a == b) by {
        lemma_xor_facts(a, b, b, 0);
        lemma_xor_facts(0, b, 0, 0);
    }
}

/// Forney's formula: with at most 16 of at most 255 bytes damaged and
/// `c` the locator that Berlekamp–Massey gives for the syndromes `s`, at a
/// position `p` that the Chien search lists, where the derivative of `c`
/// does not vanish at the root, the locator times the error evaluator (the
/// product of `s` and `c` cut to the number of syndromes) over the
/// derivative, both at the root, is the error at `p`.
pub proof fn law_forney(
    sent: Seq<u8>,
    received: Seq<u8>,
    damaged: Seq<int>,
    s: Seq<u8>,
    c: Seq<u8>,
    l: nat,
    p: int,
)
    requires
        received.len() <= 255,
        clean(sent, s.len()),
        differs_only_at(sent, received, damaged),
        positions_in(damaged, received.len()),
        2 * damaged.len() <= s.len(),
        forall|i: int| 0 <= i < s.len() ==> #[trigger] s[i] == syndrome(received, i),
        c.len() == l + 1,
        c[0] == 1,
        generates(c, s, l, s.len() as int),
        forall|d: Seq<u8>, l2: nat|
            d.len() >= 1 && d[0] == 1 && #[trigger] generates(d, s, l2, s.len() as int) ==> l2 >= l,
        0 <= p < received.len(),
        eval_ascending(c, gf_pow(2, -(received.len() - 1 - p)), c.len()) == 0,
        eval_ascending(derivative(c), gf_pow(2, -(received.len() - 1 - p)), derivative(c).len()) != 0,
    ensures
        gf_mul(
            gf_pow(2, received.len() - 1 - p),
            gf_div(
                eval_ascending(poly_product(s, c).take(s.len() as int), gf_pow(2, -(received.len() - 1 - p)), s.len()),
                eval_ascending(derivative(c), gf_pow(2, -(received.len() - 1 - p)), derivative(c).len()),
            ),
        ) == sent[p] ^ received[p],
{
    let n = received.len();
    let y = gf_pow(2, -(n - 1 - p));
    let xp = locator(n, p);
    let d = eval_ascending(derivative(c), y, derivative(c).len());
    let e = error_word(sent, received);
    let ks = s.len();
    law_locator_vanishes_at_damage(sent, received, damaged, s, c, l);
    lemma_error_syndromes(sent, received, s);
    lemma_root_times_locator(n, p);
    // The locator is longer than 1: `c = [1]` has no root.
    if l == 0 {
        law_gf_mul_unit(1);
        lemma_xor_facts(1, 0, 0, 0);
        assert(eval_ascending(c, y, 0) == 0);
        assert(eval_ascending(c, y, 1) == 0u8 ^ gf_mul(c[0], gf_power(y, 0)));
        assert(false);
    }
    assert(ks >= c.len());
    lemma_omega_value(e, s, c, y);
    let f = |t: int| gf_mul(e[t], gsum(c, locator(n, t), y, ks));
    assert forall|t: int| 0 <= t < n && t != p implies #[trigger] f(t) == 0 by {
        let xt = locator(n, t);
        if e[t] == 0 {
            law_gf_mul_unit(gsum(c, xt, y, ks));
        } else {
            if sent[t] == received[t] {
                lemma_xor_facts(sent[t], 0, 0, 0);
            }
            assert(reversed_eval(c, l, xt) == 0);
            if gf_mul(xt, y) == 1 {
                // Then xt = xp.
                law_gf_mul_associative(xt, y, xp);
                law_gf_mul_commutative(y, xp);
                law_gf_mul_unit(xt);
                law_gf_mul_unit(xp);
                law_gf_mul_commutative(xt, gf_mul(xp, y));
                law_gf_mul_associative(xp, y, xt);
                law_gf_mul_commutative(y, xt);
                assert(xt == xp);
                lemma_powers_distinct((n - 1 - t) as nat, (n - 1 - p) as nat);
            }
            lemma_gsum_other_root(c, xt, y, ks);
            law_gf_mul_unit(e[t]);
        }
    }
    lemma_xsum_single(f, n, p);
    lemma_gsum_same_root(c, xp, y, ks);
    lemma_prefix_sums_at_root(c, y, ks);
    // Omega(y) = e_p * (y * d); dividing by d gives e_p * y, and xp * y = 1.
    let ep = e[p];
    let om = gf_mul(ep, gf_mul(y, d));
    law_gf_div_mul(om, d);
    law_gf_mul_associative(ep, y, d);
    lemma_mul_cancel(gf_div(om, d), gf_mul(ep, y), d);
    law_gf_mul_associative(xp, ep, y);
    law_gf_mul_commutative(xp, ep);
    law_gf_mul_associative(ep, xp, y);
    law_gf_mul_unit(ep);
}


/// The odd part of `(x + r) q` is `r` times the odd part of `q` plus `y`
/// times its even part.
proof fn lemma_odd_part_of_product(q: Seq<u8>, r: u8, y: u8)
    requires
        q.len() >= 1,
    ensures
        parity_part(times_linear(q, r), y, q.len() + 1, 1) == gf_mul(r, parity_part(q, y, q.len(), 1)) ^ gf_mul(
            y,
            parity_part(q, y, q.len(), 0),
        ),
{
    let pp = times_linear(q, r);
    let k = q.len() + 1;
    let lo = |i: int| if i % 2 == 1 { gf_mul(r, cterm(q, y, i)) } else { 0u8 };
    let hi = |i: int| if i % 2 == 1 { gf_mul(y, cterm(q, y, i - 1)) } else { 0u8 };
    let whole = |i: int| if i % 2 == 1 { cterm(pp, y, i) } else { 0u8 };
    assert forall|i: int| 0 <= i < k implies #[trigger] whole(i) == lo(i) ^ hi(i) by {
        lemma_xor_facts(0, 0, 0, 0);
        if i % 2 == 1 {
            let yi = gf_power(y, i as nat);
            let a = coef(q, i);
            let b = coef(q, i - 1);
            assert(coef(pp, i) == gf_mul(a, r) ^ b);
            law_gf_mul_distributive(yi, gf_mul(a, r), b);
            law_gf_mul_commutative(yi, gf_mul(a, r) ^ b);
            law_gf_mul_commutative(yi, gf_mul(a, r));
            law_gf_mul_commutative(yi, b);
            law_gf_mul_commutative(a, r);
            law_gf_mul_associative(r, a, yi);
            assert(yi == gf_mul(gf_power(y, (i - 1) as nat), y));
            law_gf_mul_associative(b, gf_power(y, (i - 1) as nat), y);
            law_gf_mul_commutative(gf_mul(b, gf_power(y, (i - 1) as nat)), y);
        }
    }
    lemma_xsum_xor(lo, hi, whole, k);
    // The low part.
    let oq = |i: int| if i % 2 == 1 { cterm(q, y, i) } else { 0u8 };
    assert forall|i: int| 0 <= i < k implies #[trigger] lo(i) == gf_mul(r, oq(i)) by {
        law_gf_mul_unit(r);
    }
    lemma_xsum_scale(oq, lo, r, k);
    lemma_tail_terms(q, y, k);
    // The high part, moved down by one.
    let eq = |i: int| if i % 2 == 0 { gf_mul(y, cterm(q, y, i)) } else { 0u8 };
    assert forall|i: int| 0 <= i < q.len() implies #[trigger] eq(i) == hi(i + 1) by {}
    lemma_xsum_shift(hi, eq, q.len());
    let ev = |i: int| if i % 2 == 0 { cterm(q, y, i) } else { 0u8 };
    assert forall|i: int| 0 <= i < q.len() implies #[trigger] eq(i) == gf_mul(y, ev(i)) by {
        law_gf_mul_unit(y);
    }
    lemma_xsum_scale(ev, eq, y, q.len());
}

/// At a simple root `r` of `(x + r) q` (one where `q` does not vanish), the
/// derivative is `q(r)`, not 0.
proof fn lemma_derivative_at_factor(q: Seq<u8>, r: u8)
    requires
        q.len() >= 1,
        r != 0,
        eval_ascending(q, r, q.len()) != 0,
    ensures
        eval_ascending(derivative(times_linear(q, r)), r, derivative(times_linear(q, r)).len()) == eval_ascending(
            q,
            r,
            q.len(),
        ),
{
    let pp = times_linear(q, r);
    let dv = eval_ascending(derivative(pp), r, derivative(pp).len());
    lemma_derivative_odd(pp, r);
    lemma_odd_part_of_product(q, r, r);
    law_gf_mul_distributive(r, parity_part(q, r, q.len(), 1), parity_part(q, r, q.len(), 0));
    lemma_parity_split(q, r, q.len());
    lemma_ceval_is_eval(q, r);
    lemma_xor_facts(parity_part(q, r, q.len(), 0), parity_part(q, r, q.len(), 1), 0, 0);
    law_gf_mul_commutative(dv, r);
    law_gf_mul_commutative(eval_ascending(q, r, q.len()), r);
    lemma_mul_cancel(dv, eval_ascending(q, r, q.len()), r);
}

/// Where the Chien search lists as many distinct roots as `c` is long less
/// one, the derivative of `c` vanishes at none of them.
pub proof fn lemma_simple_roots(c: Seq<u8>, roots: Seq<u8>, k: int)
    requires
        c.len() >= 2,
        c[0] == 1,
        roots.len() == c.len() - 1,
        0 <= k < roots.len(),
        forall|a: int, b: int| 0 <= a < b < roots.len() ==> roots[a] != roots[b],
        forall|j: int| 0 <= j < roots.len() ==> eval_ascending(c, #[trigger] roots[j], c.len()) == 0,
        forall|j: int| 0 <= j < roots.len() ==> #[trigger] roots[j] != 0,
    ensures
        eval_ascending(derivative(c), roots[k], derivative(c).len()) != 0,
{
    let r = roots[k];
    let q = quotient(c, r);
    lemma_quotient_times(c, r);
    // `q` keeps the other roots, and would have one too many with `r`.
    let others = roots.remove(k);
    assert forall|j: int| 0 <= j < others.len() implies eval_ascending(q, #[trigger] others[j], q.len()) == 0 by {
        let y = others[j];
        let jj = if j < k { j } else { j + 1 };
        assert(y == roots[jj]);
        assert(y != r) by {
            if j < k {
                assert(roots[j] != roots[k]);
            } else {
                assert(roots[k] != roots[j + 1]);
            }
        }
        lemma_times_linear_eval(q, r, y);
        lemma_xor_facts(y, r, r, 0);
        lemma_xor_facts(y, 0, 0, 0);
        if y ^ r == 0 {
            assert(y == (y ^ r) ^ r) by {
                lemma_xor_facts(y, r, r, 0);
                lemma_xor_facts(r, r, 0, 0);
            }
            lemma_xor_facts(r, 0, 0, 0);
            assert(y == r);
        }
        if eval_ascending(q, y, q.len()) != 0 {
            lemma_mul_exponent(eval_ascending(q, y, q.len()), y ^ r);
        }
    }
    if forall|i: int| 0 <= i < q.len() ==> q[i] == 0 {
        law_gf_mul_unit(r);
        lemma_xor_facts(0, 0, 0, 0);
        assert(times_linear(q, r)[0] == c[0]);
        assert(false);
    }
    let i0 = choose|i: int| 0 <= i < q.len() && q[i] != 0;
    if eval_ascending(q, r, q.len()) == 0 {
        let more = others.push(r);
        assert forall|a: int, b: int| 0 <= a < b < more.len() implies more[a] != more[b] by {
            if b == more.len() - 1 {
                assert(more[b] == r);
                let aa = if a < k { a } else { a + 1 };
                assert(more[a] == roots[aa]);
                if aa < k {
                    assert(roots[aa] != roots[k]);
                } else {
                    assert(roots[k] != roots[aa]);
                }
            } else {
                let aa = if a < k { a } else { a + 1 };
                let bb = if b < k { b } else { b + 1 };
                assert(more[a] == roots[aa]);
                assert(more[b] == roots[bb]);
            }
        }
        assert forall|j: int| 0 <= j < more.len() implies eval_ascending(q, #[trigger] more[j], q.len()) == 0 by {
            if j < others.len() {
                assert(more[j] == others[j]);
            }
        }
        lemma_root_count(q, more);
        assert(false);
    }
    lemma_derivative_at_factor(q, r);
}

} // verus!
