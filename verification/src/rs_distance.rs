//! The distance of the Reed–Solomon code: a word of at most 255 bytes whose
//! 32 syndromes are zero and that has at most 32 non-zero bytes is all zero.
//! So two codewords that differ in at most 32 places are equal, and a
//! correction of at most 16 bytes that gives a codeword gives back the
//! codeword sent whenever at most 16 bytes were damaged.
use vstd::prelude::*;
use crate::gf_laws::{
    law_gf_mul_associative, law_gf_mul_commutative, law_gf_mul_distributive, law_gf_mul_unit, lemma_alpha_mod,
    lemma_log_two, lemma_mul_exponent, lemma_mul_powers, lemma_powers_distinct, lemma_xor_facts,
};
use crate::rs_code::{clean, syndrome};
use crate::rs_laws::lemma_eval_xor;
use crate::rs_field::{alpha_pow, gf_mul, gf_pow};
use crate::rs_poly::{eval_ascending, eval_descending, gf_power};

verus! {

/// The xor of `f(0)`, ..., `f(k - 1)`: a finite sum in the field.
pub open spec fn xsum(f: spec_fn(int) -> u8, k: nat) -> u8
    decreases k,
{
    if k == 0 {
        0
    } else {
        xsum(f, (k - 1) as nat) ^ f(k - 1)
    }
}

pub proof fn lemma_xsum_ext(f: spec_fn(int) -> u8, g: spec_fn(int) -> u8, k: nat)
    requires
        forall|i: int| 0 <= i < k ==> #[trigger] f(i) == g(i),
    ensures
        xsum(f, k) == xsum(g, k),
    decreases k,
{
    if k > 0 {
        lemma_xsum_ext(f, g, (k - 1) as nat);
    }
}

/// A sum of pointwise sums is the sum of the two sums.
pub proof fn lemma_xsum_xor(f: spec_fn(int) -> u8, g: spec_fn(int) -> u8, h: spec_fn(int) -> u8, k: nat)
    requires
        forall|i: int| 0 <= i < k ==> #[trigger] h(i) == f(i) ^ g(i),
    ensures
        xsum(h, k) == xsum(f, k) ^ xsum(g, k),
    decreases k,
{
    lemma_xor_facts(0, 0, 0, 0);
    if k > 0 {
        let m = (k - 1) as nat;
        lemma_xsum_xor(f, g, h, m);
        lemma_xor_facts(xsum(f, m), xsum(g, m), f(m as int), g(m as int));
    }
}

/// A constant factor comes out of a sum.
pub proof fn lemma_xsum_scale(f: spec_fn(int) -> u8, h: spec_fn(int) -> u8, c: u8, k: nat)
    requires
        forall|i: int| 0 <= i < k ==> #[trigger] h(i) == gf_mul(c, f(i)),
    ensures
        xsum(h, k) == gf_mul(c, xsum(f, k)),
    decreases k,
{
    law_gf_mul_unit(c);
    if k > 0 {
        let m = (k - 1) as nat;
        lemma_xsum_scale(f, h, c, m);
        law_gf_mul_distributive(c, xsum(f, m), f(m as int));
    }
}

/// A sum whose terms are all zero but one is that term.
pub proof fn lemma_xsum_single(f: spec_fn(int) -> u8, k: nat, p: int)
    requires
        0 <= p < k,
        forall|i: int| 0 <= i < k && i != p ==> #[trigger] f(i) == 0,
    ensures
        xsum(f, k) == f(p),
    decreases k,
{
    lemma_xor_facts(f(p), 0, 0, 0);
    if k > 0 {
        let m = (k - 1) as nat;
        if p < m {
            lemma_xsum_single(f, m, p);
        } else {
            lemma_xsum_zero(f, m);
        }
    }
}

/// A sum of zeros is zero.
pub proof fn lemma_xsum_zero(f: spec_fn(int) -> u8, k: nat)
    requires
        forall|i: int| 0 <= i < k ==> #[trigger] f(i) == 0,
    ensures
        xsum(f, k) == 0,
    decreases k,
{
    lemma_xor_facts(0, 0, 0, 0);
    if k > 0 {
        lemma_xsum_zero(f, (k - 1) as nat);
    }
}

/// The terms of a sum can be moved up by one behind a zero.
pub proof fn lemma_xsum_shift(g: spec_fn(int) -> u8, h: spec_fn(int) -> u8, k: nat)
    requires
        g(0) == 0,
        forall|i: int| 0 <= i < k ==> #[trigger] h(i) == g(i + 1),
    ensures
        xsum(g, k + 1) == xsum(h, k),
    decreases k,
{
    lemma_xor_facts(0, 0, 0, 0);
    if k > 0 {
        lemma_xsum_shift(g, h, (k - 1) as nat);
        assert(h(k - 1) == g(k - 1 + 1));
        assert(xsum(g, k + 1) == xsum(g, k) ^ g(k as int));
    } else {
        assert(xsum(g, 0) == 0);
        assert(xsum(g, 1) == xsum(g, 0) ^ g(0));
    }
}

/// A double sum can be summed in either order.
pub proof fn lemma_xsum_swap(f: spec_fn(int, int) -> u8, a: nat, b: nat)
    ensures
        xsum(|i: int| xsum(|t: int| f(i, t), b), a) == xsum(|t: int| xsum(|i: int| f(i, t), a), b),
    decreases a,
{
    if a == 0 {
        lemma_xsum_zero(|t: int| xsum(|i: int| f(i, t), 0), b);
    } else {
        let m = (a - 1) as nat;
        lemma_xsum_swap(f, m, b);
        lemma_xsum_xor(
            |t: int| xsum(|i: int| f(i, t), m),
            |t: int| f(m as int, t),
            |t: int| xsum(|i: int| f(i, t), a),
            b,
        );
    }
}

/// `w` at `x` term by term: the xor of `w[t] * x^(top - 1 - t)` for `t < k`.
pub open spec fn power_sum(w: Seq<u8>, x: u8, k: nat, top: nat) -> u8 {
    xsum(|t: int| gf_mul(w[t], gf_power(x, (top - 1 - t) as nat)), k)
}

proof fn lemma_power_sum_shift(w: Seq<u8>, x: u8, k: nat, top: nat)
    requires
        k <= top,
    ensures
        gf_mul(power_sum(w, x, k, top), x) == power_sum(w, x, k, top + 1),
{
    let f = |t: int| gf_mul(w[t], gf_power(x, (top - 1 - t) as nat));
    let h = |t: int| gf_mul(w[t], gf_power(x, (top + 1 - 1 - t) as nat));
    assert forall|t: int| 0 <= t < k implies #[trigger] h(t) == gf_mul(x, f(t)) by {
        let e = (top - 1 - t) as nat;
        assert(gf_power(x, (top + 1 - 1 - t) as nat) == gf_mul(gf_power(x, e), x));
        law_gf_mul_commutative(x, f(t));
        law_gf_mul_associative(w[t], gf_power(x, e), x);
    }
    lemma_xsum_scale(f, h, x, k);
    law_gf_mul_commutative(x, power_sum(w, x, k, top));
}

/// Horner's rule computes the sum of the terms.
pub proof fn lemma_horner_power(w: Seq<u8>, x: u8, k: nat)
    requires
        k <= w.len(),
    ensures
        eval_descending(w, x, k) == power_sum(w, x, k, k),
    decreases k,
{
    if k > 0 {
        let m = (k - 1) as nat;
        lemma_horner_power(w, x, m);
        lemma_power_sum_shift(w, x, m, m);
        law_gf_mul_unit(w[m as int]);
        assert(gf_power(x, 0) == 1);
    }
}

/// Ascending evaluation is the sum of `p[i] * x^i`.
pub proof fn lemma_ascending_power(p: Seq<u8>, x: u8, k: nat)
    ensures
        eval_ascending(p, x, k) == xsum(|i: int| gf_mul(p[i], gf_power(x, i as nat)), k),
    decreases k,
{
    if k > 0 {
        lemma_ascending_power(p, x, (k - 1) as nat);
    }
}

/// The locator of position `t` in a word of `n` bytes: 2^(n - 1 - t).
pub open spec fn locator(n: nat, t: int) -> u8 {
    alpha_pow((n - 1 - t) as nat)
}

/// Powers of a power of 2 multiply the exponents.
pub proof fn lemma_power_of_power(a: nat, b: nat)
    ensures
        gf_power(alpha_pow(a), b) == alpha_pow(a * b),
    decreases b,
{
    if b > 0 {
        let c = (b - 1) as nat;
        lemma_power_of_power(a, c);
        lemma_mul_powers(a * c, a);
        assert(a * c + a == a * b) by (nonlinear_arith)
            requires
                c + 1 == b,
        ;
        assert(gf_power(alpha_pow(a), b) == gf_mul(gf_power(alpha_pow(a), c), alpha_pow(a)));
    } else {
        assert(a * b == 0) by (nonlinear_arith)
            requires
                b == 0,
        ;
    }
}

/// `2^i` for `i >= 0`, as the tables give it.
pub proof fn lemma_pow_of_two(i: nat)
    ensures
        gf_pow(2, i as int) == alpha_pow(i),
{
    lemma_log_two();
    lemma_alpha_mod(i);
    assert((1 * i) % 255 == i % 255);
}

/// Syndrome `i` is the sum of each byte times its locator to the power `i`.
pub proof fn lemma_syndrome_terms(w: Seq<u8>, i: nat)
    ensures
        syndrome(w, i as int) == xsum(|t: int| gf_mul(w[t], gf_power(locator(w.len(), t), i)), w.len()),
{
    let n = w.len();
    let r = gf_pow(2, i as int);
    lemma_pow_of_two(i);
    lemma_horner_power(w, r, n);
    let f = |t: int| gf_mul(w[t], gf_power(r, (n - 1 - t) as nat));
    let g = |t: int| gf_mul(w[t], gf_power(locator(n, t), i));
    assert forall|t: int| 0 <= t < n implies #[trigger] f(t) == g(t) by {
        let e = (n - 1 - t) as nat;
        lemma_power_of_power(i, e);
        lemma_power_of_power(e, i);
        assert(i * e == e * i) by (nonlinear_arith);
    }
    lemma_xsum_ext(f, g, n);
}

/// A combination of the syndromes with coefficients `q` is the sum of each
/// byte times `q` evaluated at the byte's locator.
pub proof fn lemma_syndrome_combination(w: Seq<u8>, q: Seq<u8>, d: nat)
    ensures
        xsum(|i: int| gf_mul(q[i], syndrome(w, i)), d) == xsum(
            |t: int| gf_mul(w[t], eval_ascending(q, locator(w.len(), t), d)),
            w.len(),
        ),
{
    let n = w.len();
    let term = |i: int, t: int| gf_mul(q[i], gf_mul(w[t], gf_power(locator(n, t), i as nat)));
    let rows = |i: int| xsum(|t: int| term(i, t), n);
    assert forall|i: int| 0 <= i < d implies #[trigger] rows(i) == gf_mul(q[i], syndrome(w, i)) by {
        lemma_syndrome_terms(w, i as nat);
        lemma_xsum_scale(|t: int| gf_mul(w[t], gf_power(locator(n, t), i as nat)), |t: int| term(i, t), q[i], n);
    }
    lemma_xsum_ext(rows, |i: int| gf_mul(q[i], syndrome(w, i)), d);
    lemma_xsum_swap(term, d, n);
    let cols = |t: int| xsum(|i: int| term(i, t), d);
    assert forall|t: int| 0 <= t < n implies #[trigger] cols(t) == gf_mul(w[t], eval_ascending(q, locator(n, t), d)) by {
        let x = locator(n, t);
        lemma_ascending_power(q, x, d);
        assert forall|i: int| 0 <= i < d implies #[trigger] term(i, t) == gf_mul(w[t], gf_mul(q[i], gf_power(x, i as nat))) by {
            law_gf_mul_associative(q[i], w[t], gf_power(x, i as nat));
            law_gf_mul_associative(w[t], q[i], gf_power(x, i as nat));
            law_gf_mul_commutative(q[i], w[t]);
        }
        lemma_xsum_scale(|i: int| gf_mul(q[i], gf_power(x, i as nat)), |i: int| term(i, t), w[t], d);
    }
    lemma_xsum_ext(cols, |t: int| gf_mul(w[t], eval_ascending(q, locator(n, t), d)), n);
}

/// The product of `a` (lowest degree first) and `x + c`.
pub open spec fn times_linear(a: Seq<u8>, c: u8) -> Seq<u8> {
    Seq::new(
        a.len() + 1,
        |t: int| (if t < a.len() { gf_mul(a[t], c) } else { 0u8 }) ^ (if t >= 1 { a[t - 1] } else { 0u8 }),
    )
}

/// The value of the product by `x + c` is the value times `x + c`.
pub proof fn lemma_times_linear_eval(a: Seq<u8>, c: u8, x: u8)
    ensures
        eval_ascending(times_linear(a, c), x, a.len() + 1) == gf_mul(eval_ascending(a, x, a.len()), x ^ c),
{
    let len = a.len();
    let m = times_linear(a, c);
    let base = |t: int| gf_mul(a[t], gf_power(x, t as nat));
    let lo = |t: int| gf_mul((if t < len { gf_mul(a[t], c) } else { 0u8 }), gf_power(x, t as nat));
    let hi = |t: int| gf_mul((if t >= 1 { a[t - 1] } else { 0u8 }), gf_power(x, t as nat));
    let whole = |t: int| gf_mul(m[t], gf_power(x, t as nat));
    lemma_ascending_power(m, x, len + 1);
    lemma_ascending_power(a, x, len);
    assert forall|t: int| 0 <= t < len + 1 implies #[trigger] whole(t) == lo(t) ^ hi(t) by {
        let lc = if t < len { gf_mul(a[t], c) } else { 0u8 };
        let hc = if t >= 1 { a[t - 1] } else { 0u8 };
        law_gf_mul_distributive(gf_power(x, t as nat), lc, hc);
        law_gf_mul_commutative(gf_power(x, t as nat), lc);
        law_gf_mul_commutative(gf_power(x, t as nat), hc);
        law_gf_mul_commutative(gf_power(x, t as nat), m[t]);
    }
    lemma_xsum_xor(lo, hi, whole, len + 1);
    // The low part: `c` times the value.
    law_gf_mul_unit(gf_power(x, len));
    lemma_xor_facts(xsum(lo, len), 0, 0, 0);
    assert forall|t: int| 0 <= t < len implies #[trigger] lo(t) == gf_mul(c, base(t)) by {
        law_gf_mul_commutative(a[t], c);
        law_gf_mul_associative(c, a[t], gf_power(x, t as nat));
    }
    lemma_xsum_scale(base, lo, c, len);
    // The high part: `x` times the value.
    let up = |t: int| gf_mul(a[t], gf_power(x, (t + 1) as nat));
    law_gf_mul_unit(gf_power(x, 0));
    assert forall|t: int| 0 <= t < len implies #[trigger] up(t) == hi(t + 1) by {}
    lemma_xsum_shift(hi, up, len);
    assert forall|t: int| 0 <= t < len implies #[trigger] up(t) == gf_mul(x, base(t)) by {
        assert(gf_power(x, (t + 1) as nat) == gf_mul(gf_power(x, t as nat), x));
        law_gf_mul_associative(a[t], gf_power(x, t as nat), x);
        law_gf_mul_commutative(x, base(t));
    }
    lemma_xsum_scale(base, up, x, len);
    let e = xsum(base, len);
    law_gf_mul_commutative(c, e);
    law_gf_mul_commutative(x, e);
    law_gf_mul_distributive(e, x, c);
    lemma_xor_facts(gf_mul(e, c), gf_mul(e, x), 0, 0);
}

/// The product of `x + locator(n, q)` over the positions `q` of `ps` other than `p`.
pub open spec fn annihilator(ps: Seq<int>, p: int, n: nat) -> Seq<u8>
    decreases ps.len(),
{
    if ps.len() == 0 {
        seq![1u8]
    } else {
        let prev = annihilator(ps.drop_last(), p, n);
        if ps.last() == p {
            prev
        } else {
            times_linear(prev, locator(n, ps.last()))
        }
    }
}

/// The annihilator has one coefficient more than the positions it covers.
pub proof fn lemma_annihilator_len(ps: Seq<int>, p: int, n: nat)
    ensures
        1 <= annihilator(ps, p, n).len() <= ps.len() + 1,
        (exists|k: int| 0 <= k < ps.len() && ps[k] == p) ==> annihilator(ps, p, n).len() <= ps.len(),
    decreases ps.len(),
{
    if ps.len() > 0 {
        let prev = ps.drop_last();
        lemma_annihilator_len(prev, p, n);
        if exists|k: int| 0 <= k < ps.len() && ps[k] == p {
            let k = choose|k: int| 0 <= k < ps.len() && ps[k] == p;
            if ps.last() != p {
                assert(prev[k] == p);
            }
        }
    }
}

/// The annihilator vanishes at the locator of every position it covers, and
/// nowhere else.
pub proof fn lemma_annihilator_eval(ps: Seq<int>, p: int, n: nat, x: u8)
    ensures
        (exists|k: int| 0 <= k < ps.len() && ps[k] != p && #[trigger] locator(n, ps[k]) == x) ==> eval_ascending(
            annihilator(ps, p, n),
            x,
            annihilator(ps, p, n).len(),
        ) == 0,
        (forall|k: int| 0 <= k < ps.len() && ps[k] != p ==> #[trigger] locator(n, ps[k]) != x) ==> eval_ascending(
            annihilator(ps, p, n),
            x,
            annihilator(ps, p, n).len(),
        ) != 0,
    decreases ps.len(),
{
    if ps.len() == 0 {
        law_gf_mul_unit(1);
        law_gf_mul_unit(gf_power(x, 0));
        lemma_xor_facts(1, 0, 0, 0);
        assert(eval_ascending(seq![1u8], x, 0) == 0);
        assert(eval_ascending(seq![1u8], x, 1) == 0 ^ gf_mul(1u8, gf_power(x, 0)));
    } else {
        let prev = ps.drop_last();
        let q = annihilator(prev, p, n);
        lemma_annihilator_eval(prev, p, n, x);
        lemma_annihilator_len(prev, p, n);
        let last = ps.last();
        if exists|k: int| 0 <= k < ps.len() && ps[k] != p && #[trigger] locator(n, ps[k]) == x {
            let k = choose|k: int| 0 <= k < ps.len() && ps[k] != p && #[trigger] locator(n, ps[k]) == x;
            if k < ps.len() - 1 {
                assert(prev[k] == ps[k]);
                assert(locator(n, prev[k]) == x);
            }
        }
        if forall|k: int| 0 <= k < ps.len() && ps[k] != p ==> #[trigger] locator(n, ps[k]) != x {
            assert forall|k: int| 0 <= k < prev.len() && prev[k] != p implies #[trigger] locator(n, prev[k]) != x by {
                assert(prev[k] == ps[k]);
            }
        }
        if last != p {
            let c = locator(n, last);
            let e = eval_ascending(q, x, q.len());
            lemma_times_linear_eval(q, c, x);
            law_gf_mul_unit(e);
            lemma_xor_facts(x, c, c, 0);
            lemma_xor_facts(c, 0, 0, 0);
            lemma_xor_facts(x, 0, 0, 0);
            if x ^ c != 0 && e != 0 {
                lemma_mul_exponent(e, x ^ c);
            }
            if x == c {
                assert(x ^ c == 0);
            }
            if x ^ c == 0 {
                assert(x == c);
            }
        }
    }
}

/// `a` and `b` have the same length and differ only at positions listed in `ps`.
pub open spec fn differs_only_at(a: Seq<u8>, b: Seq<u8>, ps: Seq<int>) -> bool {
    &&& a.len() == b.len()
    &&& forall|t: int| 0 <= t < a.len() && a[t] != b[t] ==> exists|k: int| 0 <= k < ps.len() && ps[k] == t
}

/// The positions of `ps` all lie in a word of `n` bytes.
pub open spec fn positions_in(ps: Seq<int>, n: nat) -> bool {
    forall|k: int| 0 <= k < ps.len() ==> 0 <= #[trigger] ps[k] < n
}

/// A word of at most 255 bytes with `k` zero syndromes whose non-zero bytes
/// all lie at the at most `k` positions of `ps` is all zero.
pub proof fn lemma_light_codeword_is_zero(w: Seq<u8>, ps: Seq<int>, k: nat)
    requires
        w.len() <= 255,
        clean(w, k),
        ps.len() <= k,
        positions_in(ps, w.len()),
        forall|t: int| 0 <= t < w.len() && w[t] != 0 ==> exists|k: int| 0 <= k < ps.len() && ps[k] == t,
    ensures
        forall|t: int| 0 <= t < w.len() ==> w[t] == 0,
{
    let n = w.len();
    assert forall|p: int| 0 <= p < n implies w[p] == 0 by {
        if w[p] != 0 {
            let q = annihilator(ps, p, n);
            lemma_annihilator_len(ps, p, n);
            let d = q.len();
            // The combination of the syndromes is zero ...
            assert forall|i: int| 0 <= i < d implies #[trigger] gf_mul(q[i], syndrome(w, i)) == 0 by {
                assert(syndrome(w, i) == 0);
                law_gf_mul_unit(q[i]);
            }
            lemma_xsum_zero(|i: int| gf_mul(q[i], syndrome(w, i)), d);
            lemma_syndrome_combination(w, q, d);
            // ... and it is the byte at `p` times a non-zero value.
            let term = |t: int| gf_mul(w[t], eval_ascending(q, locator(n, t), d));
            assert forall|t: int| 0 <= t < n && t != p implies #[trigger] term(t) == 0 by {
                law_gf_mul_unit(eval_ascending(q, locator(n, t), d));
                law_gf_mul_commutative(0, eval_ascending(q, locator(n, t), d));
                if w[t] != 0 {
                    let k = choose|k: int| 0 <= k < ps.len() && ps[k] == t;
                    lemma_annihilator_eval(ps, p, n, locator(n, t));
                    assert(locator(n, ps[k]) == locator(n, t));
                    law_gf_mul_unit(w[t]);
                }
            }
            lemma_xsum_single(term, n, p);
            assert forall|k: int| 0 <= k < ps.len() && ps[k] != p implies #[trigger] locator(n, ps[k]) != locator(
                n,
                p,
            ) by {
                assert(0 <= ps[k] < n);
                lemma_powers_distinct((n - 1 - ps[k]) as nat, (n - 1 - p) as nat);
            }
            lemma_annihilator_eval(ps, p, n, locator(n, p));
            lemma_mul_exponent(w[p], eval_ascending(q, locator(n, p), d));
        }
    }
}

/// Two codewords of at most 255 bytes that differ in at most 32 places are
/// equal: the code's distance is 33.
pub proof fn law_codewords_far_apart(a: Seq<u8>, b: Seq<u8>, ps: Seq<int>)
    requires
        a.len() <= 255,
        clean(a, 32),
        clean(b, 32),
        ps.len() <= 32,
        positions_in(ps, a.len()),
        differs_only_at(a, b, ps),
    ensures
        a == b,
{
    lemma_close_codewords_equal(a, b, ps, 32);
}

/// Two words of at most 255 bytes with `k` zero syndromes that differ in at
/// most `k` places are equal.
pub proof fn lemma_close_codewords_equal(a: Seq<u8>, b: Seq<u8>, ps: Seq<int>, k: nat)
    requires
        a.len() <= 255,
        clean(a, k),
        clean(b, k),
        ps.len() <= k,
        positions_in(ps, a.len()),
        differs_only_at(a, b, ps),
    ensures
        a == b,
{
    let n = a.len();
    let w = Seq::new(n, |t: int| a[t] ^ b[t]);
    assert forall|i: int| 0 <= i < k implies #[trigger] syndrome(w, i) == 0 by {
        lemma_eval_xor(a, b, w, crate::rs_field::gf_pow(2, i), n);
        assert(syndrome(a, i) == 0 && syndrome(b, i) == 0);
        lemma_xor_facts(0, 0, 0, 0);
    }
    assert forall|t: int| 0 <= t < n && w[t] != 0 implies exists|k: int| 0 <= k < ps.len() && ps[k] == t by {
        lemma_xor_facts(a[t], 0, 0, 0);
    }
    lemma_light_codeword_is_zero(w, ps, k);
    assert forall|t: int| 0 <= t < n implies a[t] == b[t] by {
        assert(w[t] == 0);
        lemma_xor_facts(a[t], b[t], b[t], 0);
        lemma_xor_facts(b[t], 0, 0, 0);
    }
    assert(a =~= b);
}

/// A correction of at most 16 bytes that gives a codeword gives back the
/// codeword sent, whenever at most 16 of its bytes were damaged: a block that
/// the decoder reports corrected is never miscorrected within the code's reach.
pub proof fn law_rs_correction_sound(sent: Seq<u8>, received: Seq<u8>, corrected: Seq<u8>, damaged: Seq<int>, fixed: Seq<int>)
    requires
        sent.len() <= 255,
        clean(sent, 32),
        clean(corrected, 32),
        damaged.len() <= 16,
        fixed.len() <= 16,
        positions_in(damaged, sent.len()),
        positions_in(fixed, sent.len()),
        differs_only_at(sent, received, damaged),
        differs_only_at(received, corrected, fixed),
    ensures
        corrected == sent,
{
    let ps = damaged + fixed;
    assert forall|t: int| 0 <= t < sent.len() && sent[t] != corrected[t] implies exists|k: int| 0 <= k < ps.len() && ps[k] == t by {
        if sent[t] != received[t] {
            let k = choose|k: int| 0 <= k < damaged.len() && damaged[k] == t;
            assert(ps[k] == t);
        } else {
            let k = choose|k: int| 0 <= k < fixed.len() && fixed[k] == t;
            assert(ps[damaged.len() + k] == t);
        }
    }
    assert forall|k: int| 0 <= k < ps.len() implies 0 <= #[trigger] ps[k] < sent.len() by {
        if k < damaged.len() {
            assert(ps[k] == damaged[k]);
        } else {
            assert(ps[k] == fixed[k - damaged.len()]);
        }
    }
    law_codewords_far_apart(sent, corrected, ps);
}

} // verus!
