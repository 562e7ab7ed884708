//! Locating the damage: when a codeword of at most 255 bytes was damaged in
//! at most half as many places as there are syndromes, a recurrence of at
//! most that half length that generates the syndromes vanishes, read
//! backwards, at the locator of every damaged byte.
use vstd::prelude::*;
use crate::gf_laws::{
    law_gf_mul_associative, law_gf_mul_commutative, law_gf_mul_distributive, law_gf_mul_unit, lemma_alpha_mod, lemma_alpha_nonzero, lemma_log_two,
    lemma_mul_exponent, lemma_mul_powers, lemma_powers_distinct, lemma_xor_facts,
};
use crate::rs_code::{clean, disc, error_positions, generates, syndrome};
use crate::rs_distance::{
    annihilator, differs_only_at, lemma_annihilator_eval, lemma_annihilator_len, lemma_ascending_power,
    lemma_light_codeword_is_zero, lemma_syndrome_terms, lemma_times_linear_eval, lemma_xsum_ext, lemma_xsum_scale, lemma_xsum_swap,
    lemma_power_of_power, lemma_xsum_zero, locator, positions_in, times_linear, xsum,
};
use crate::rs_field::{alpha_pow, gf_mul, gf_pow};
use crate::rs_laws::{coef, lemma_disc_as_sum, lemma_eval_xor};
use crate::rs_poly::{eval_ascending, gf_power};

verus! {

/// `c` read backwards over its first `l + 1` coefficients, at `x`: the xor of
/// `c[i] * x^(l - i)`.
pub open spec fn reversed_eval(c: Seq<u8>, l: nat, x: u8) -> u8 {
    xsum(|i: int| gf_mul(coef(c, i), gf_power(x, (l - i) as nat)), l + 1)
}

/// Each byte of `e` times the backwards value of `c` at the byte's locator.
pub open spec fn weighted(e: Seq<u8>, c: Seq<u8>, l: nat) -> Seq<u8> {
    Seq::new(e.len(), |t: int| gf_mul(e[t], reversed_eval(c, l, locator(e.len(), t))))
}

/// Powers add their exponents.
pub proof fn lemma_power_add(x: u8, a: nat, b: nat)
    ensures
        gf_power(x, a + b) == gf_mul(gf_power(x, a), gf_power(x, b)),
    decreases b,
{
    if b == 0 {
        law_gf_mul_unit(gf_power(x, a));
    } else {
        let b1 = (b - 1) as nat;
        lemma_power_add(x, a, b1);
        law_gf_mul_associative(gf_power(x, a), gf_power(x, b1), x);
        assert(gf_power(x, (a + b1 + 1) as nat) == gf_mul(gf_power(x, a + b1), x));
        assert(gf_power(x, b) == gf_mul(gf_power(x, b1), x));
    }
}

/// The combination that `c` forms at `j` of the syndromes `s` of `e` is the
/// syndrome `j - l` of `e` weighted by `c` read backwards.
pub proof fn lemma_disc_weighted(c: Seq<u8>, e: Seq<u8>, s: Seq<u8>, l: nat, j: int)
    requires
        l <= j < s.len(),
        forall|i: int| 0 <= i < s.len() ==> #[trigger] s[i] == syndrome(e, i),
    ensures
        disc(c, s, j, l + 1) == syndrome(weighted(e, c, l), j - l),
{
    let n = e.len();
    let v = weighted(e, c, l);
    let k = (j - l) as nat;
    lemma_disc_as_sum(c, s, j, l + 1);
    let term = |i: int, t: int| gf_mul(coef(c, i), gf_mul(e[t], gf_power(locator(n, t), (j - i) as nat)));
    let rows = |i: int| xsum(|t: int| term(i, t), n);
    assert forall|i: int| 0 <= i < l + 1 implies #[trigger] rows(i) == gf_mul(coef(c, i), coef(s, j - i)) by {
        lemma_syndrome_terms(e, (j - i) as nat);
        assert(coef(s, j - i) == syndrome(e, j - i));
        lemma_xsum_scale(
            |t: int| gf_mul(e[t], gf_power(locator(n, t), (j - i) as nat)),
            |t: int| term(i, t),
            coef(c, i),
            n,
        );
    }
    lemma_xsum_ext(rows, |i: int| gf_mul(coef(c, i), coef(s, j - i)), l + 1);
    lemma_xsum_swap(term, l + 1, n);
    let cols = |t: int| xsum(|i: int| term(i, t), l + 1);
    lemma_syndrome_terms(v, k);
    assert forall|t: int| 0 <= t < n implies #[trigger] cols(t) == gf_mul(v[t], gf_power(locator(n, t), k)) by {
        let x = locator(n, t);
        let r = reversed_eval(c, l, x);
        let xk = gf_power(x, k);
        let f = |i: int| gf_mul(coef(c, i), gf_power(x, (l - i) as nat));
        let g = |i: int| gf_mul(coef(c, i), gf_power(x, (j - i) as nat));
        assert forall|i: int| 0 <= i < l + 1 implies #[trigger] g(i) == gf_mul(xk, f(i)) by {
            lemma_power_add(x, (l - i) as nat, k);
            assert((l - i) as nat + k == (j - i) as nat);
            law_gf_mul_associative(coef(c, i), gf_power(x, (l - i) as nat), xk);
            law_gf_mul_commutative(xk, f(i));
        }
        lemma_xsum_scale(f, g, xk, l + 1);
        assert forall|i: int| 0 <= i < l + 1 implies #[trigger] term(i, t) == gf_mul(e[t], g(i)) by {
            law_gf_mul_associative(coef(c, i), e[t], gf_power(x, (j - i) as nat));
            law_gf_mul_associative(e[t], coef(c, i), gf_power(x, (j - i) as nat));
            law_gf_mul_commutative(coef(c, i), e[t]);
        }
        lemma_xsum_scale(g, |i: int| term(i, t), e[t], l + 1);
        law_gf_mul_associative(e[t], r, xk);
        law_gf_mul_commutative(r, xk);
    }
    lemma_xsum_ext(cols, |t: int| gf_mul(v[t], gf_power(locator(n, t), k)), n);
}

/// A sum can be taken from its first term on.
pub proof fn lemma_xsum_unshift(f: spec_fn(int) -> u8, k: nat)
    requires
        k >= 1,
    ensures
        xsum(f, k) == f(0) ^ xsum(|i: int| f(i + 1), (k - 1) as nat),
    decreases k,
{
    if k == 1 {
        lemma_xor_facts(f(0), 0, 0, 0);
        assert(xsum(f, 1) == xsum(f, 0) ^ f(0));
        assert(xsum(|i: int| f(i + 1), 0) == 0);
    } else {
        let m = (k - 1) as nat;
        lemma_xsum_unshift(f, m);
        let rest = xsum(|i: int| f(i + 1), (m - 1) as nat);
        lemma_xor_facts(f(0), rest, f(m as int), 0);
        assert(xsum(|i: int| f(i + 1), m) == rest ^ f(m as int));
        assert(xsum(f, k) == xsum(f, m) ^ f(m as int));
    }
}

/// A sum taken backwards is the same sum.
pub proof fn lemma_xsum_reverse(f: spec_fn(int) -> u8, k: nat)
    ensures
        xsum(|i: int| f(k - 1 - i), k) == xsum(f, k),
    decreases k,
{
    if k > 0 {
        let m = (k - 1) as nat;
        let f1 = |i: int| f(i + 1);
        let g = |i: int| f(k - 1 - i);
        lemma_xsum_reverse(f1, m);
        lemma_xsum_ext(|i: int| f1(m - 1 - i), g, m);
        lemma_xsum_unshift(f, k);
        assert(xsum(g, k) == xsum(g, m) ^ g(m as int));
        lemma_xor_facts(xsum(f1, m), f(0), 0, 0);
    }
}

/// The top coefficient of an annihilator is 1.
proof fn lemma_annihilator_top(ps: Seq<int>, p: int, n: nat)
    ensures
        annihilator(ps, p, n)[annihilator(ps, p, n).len() - 1] == 1,
    decreases ps.len(),
{
    lemma_annihilator_len(ps, p, n);
    if ps.len() > 0 {
        let prev = annihilator(ps.drop_last(), p, n);
        lemma_annihilator_top(ps.drop_last(), p, n);
        lemma_annihilator_len(ps.drop_last(), p, n);
        lemma_xor_facts(1, 0, 0, 0);
        if ps.last() != p {
            let m = times_linear(prev, locator(n, ps.last()));
            assert(m[prev.len() as int] == 0u8 ^ prev[prev.len() - 1]);
        }
    }
}

/// The bytes in which `received` differs from `sent`.
pub open spec fn error_word(sent: Seq<u8>, received: Seq<u8>) -> Seq<u8> {
    Seq::new(received.len(), |t: int| sent[t] ^ received[t])
}

pub proof fn lemma_error_syndromes(sent: Seq<u8>, received: Seq<u8>, s: Seq<u8>)
    requires
        sent.len() == received.len(),
        clean(sent, s.len()),
        forall|i: int| 0 <= i < s.len() ==> #[trigger] s[i] == syndrome(received, i),
    ensures
        forall|i: int| 0 <= i < s.len() ==> #[trigger] s[i] == syndrome(error_word(sent, received), i),
{
    let n = received.len();
    let e = error_word(sent, received);
    assert forall|i: int| 0 <= i < s.len() implies #[trigger] s[i] == syndrome(e, i) by {
        lemma_eval_xor(sent, received, e, gf_pow(2, i), n);
        assert(syndrome(sent, i) == 0);
        lemma_xor_facts(syndrome(received, i), 0, 0, 0);
        assert(syndrome(e, i) == syndrome(sent, i) ^ syndrome(received, i));
    }
}

/// The locator of the damage: the product of `1 + locator * x` over the
/// damaged positions, lowest degree first.
pub open spec fn damage_locator(damaged: Seq<int>, n: nat) -> Seq<u8> {
    let a = annihilator(damaged, -1, n);
    Seq::new(a.len(), |i: int| a[a.len() - 1 - i])
}

/// The locator of the damage has constant term 1, at most one coefficient
/// more than there are damaged positions, and generates the syndromes.
proof fn lemma_damage_locator_generates(sent: Seq<u8>, received: Seq<u8>, damaged: Seq<int>, s: Seq<u8>)
    requires
        received.len() <= 255,
        clean(sent, s.len()),
        differs_only_at(sent, received, damaged),
        positions_in(damaged, received.len()),
        forall|i: int| 0 <= i < s.len() ==> #[trigger] s[i] == syndrome(received, i),
    ensures
        damage_locator(damaged, received.len()).len() >= 1,
        damage_locator(damaged, received.len())[0] == 1,
        damage_locator(damaged, received.len()).len() <= damaged.len() + 1,
        damage_locator(damaged, received.len()).len() - 1 <= s.len() ==> generates(
            damage_locator(damaged, received.len()),
            s,
            (damage_locator(damaged, received.len()).len() - 1) as nat,
            s.len() as int,
        ),
{
    let n = received.len();
    let a = annihilator(damaged, -1, n);
    let lam = damage_locator(damaged, n);
    lemma_annihilator_len(damaged, -1, n);
    lemma_annihilator_top(damaged, -1, n);
    let d = (a.len() - 1) as nat;
    let e = error_word(sent, received);
    lemma_error_syndromes(sent, received, s);
    let v = weighted(e, lam, d);
    assert forall|t: int| 0 <= t < n implies #[trigger] v[t] == 0 by {
        let x = locator(n, t);
        let f = |i: int| gf_mul(a[i], gf_power(x, i as nat));
        lemma_xsum_reverse(f, d + 1);
        lemma_xsum_ext(
            |i: int| f(d + 1 - 1 - i),
            |i: int| gf_mul(coef(lam, i), gf_power(x, (d - i) as nat)),
            d + 1,
        );
        lemma_ascending_power(a, x, d + 1);
        if sent[t] != received[t] {
            let k = choose|k: int| 0 <= k < damaged.len() && damaged[k] == t;
            assert(locator(n, damaged[k]) == x);
            lemma_annihilator_eval(damaged, -1, n, x);
            law_gf_mul_unit(e[t]);
        } else {
            lemma_xor_facts(sent[t], 0, 0, 0);
            law_gf_mul_unit(reversed_eval(lam, d, x));
        }
    }
    if d <= s.len() {
        assert forall|j: int| d <= j < s.len() implies #[trigger] disc(lam, s, j, d + 1) == 0 by {
            lemma_disc_weighted(lam, e, s, d, j);
            lemma_syndrome_terms(v, (j - d) as nat);
            assert forall|t: int| 0 <= t < n implies #[trigger] gf_mul(v[t], gf_power(locator(n, t), (j - d) as nat)) == 0 by {
                law_gf_mul_unit(gf_power(locator(n, t), (j - d) as nat));
            }
            lemma_xsum_zero(|t: int| gf_mul(v[t], gf_power(locator(n, t), (j - d) as nat)), n);
        }
    }
}

/// Where the word `received`, of at most 255 bytes, differs from the
/// codeword `sent` only at the positions `damaged`, at most half as many as
/// its syndromes `s`, a shortest recurrence `c` with constant term 1 that
/// generates them (as Berlekamp–Massey gives) is no longer than the damage
/// is wide, and vanishes, read backwards, at the locator of every byte that
/// differs.
pub proof fn law_locator_vanishes_at_damage(
    sent: Seq<u8>,
    received: Seq<u8>,
    damaged: Seq<int>,
    s: Seq<u8>,
    c: Seq<u8>,
    l: nat,
)
    requires
        received.len() <= 255,
        clean(sent, s.len()),
        differs_only_at(sent, received, damaged),
        positions_in(damaged, received.len()),
        2 * damaged.len() <= s.len(),
        forall|i: int| 0 <= i < s.len() ==> #[trigger] s[i] == syndrome(received, i),
        generates(c, s, l, s.len() as int),
        forall|d: Seq<u8>, l2: nat|
            d.len() >= 1 && d[0] == 1 && #[trigger] generates(d, s, l2, s.len() as int) ==> l2 >= l,
    ensures
        l <= damaged.len(),
        forall|p: int|
            0 <= p < received.len() && sent[p] != received[p] ==> #[trigger] reversed_eval(
                c,
                l,
                locator(received.len(), p),
            ) == 0,
{
    let n = received.len();
    let lam = damage_locator(damaged, n);
    lemma_damage_locator_generates(sent, received, damaged, s);
    assert(generates(lam, s, (lam.len() - 1) as nat, s.len() as int));
    let e = Seq::new(n, |t: int| sent[t] ^ received[t]);
    assert forall|i: int| 0 <= i < s.len() implies #[trigger] s[i] == syndrome(e, i) by {
        lemma_eval_xor(sent, received, e, gf_pow(2, i), n);
        assert(syndrome(sent, i) == 0);
        lemma_xor_facts(syndrome(received, i), 0, 0, 0);
        assert(syndrome(e, i) == syndrome(sent, i) ^ syndrome(received, i));
    }
    let v = weighted(e, c, l);
    let kk = (s.len() - l) as nat;
    assert forall|m: int| 0 <= m < kk implies #[trigger] syndrome(v, m) == 0 by {
        lemma_disc_weighted(c, e, s, l, m + l);
        assert(disc(c, s, m + l, l + 1) == 0);
    }
    assert forall|t: int| 0 <= t < v.len() && v[t] != 0 implies exists|k: int| 0 <= k < damaged.len() && damaged[k] == t by {
        if sent[t] == received[t] {
            lemma_xor_facts(sent[t], 0, 0, 0);
            assert(e[t] == 0);
            law_gf_mul_unit(reversed_eval(c, l, locator(n, t)));
        }
    }
    lemma_light_codeword_is_zero(v, damaged, kk);
    assert forall|p: int| 0 <= p < n && sent[p] != received[p] implies #[trigger] reversed_eval(c, l, locator(n, p)) == 0 by {
        assert(v[p] == 0);
        if e[p] == 0 {
            lemma_xor_facts(sent[p], received[p], received[p], 0);
            lemma_xor_facts(received[p], 0, 0, 0);
        }
        if reversed_eval(c, l, locator(n, p)) != 0 {
            lemma_mul_exponent(e[p], reversed_eval(c, l, locator(n, p)));
        }
    }
}


/// Where `c` vanishes backwards at the locator `2^e` of a position, it
/// vanishes at the root `2^-e` that the Chien search tries there.
proof fn lemma_reversed_root(c: Seq<u8>, l: nat, e: nat)
    requires
        c.len() == l + 1,
        e < 255,
        reversed_eval(c, l, alpha_pow(e)) == 0,
    ensures
        eval_ascending(c, gf_pow(2, -e), c.len()) == 0,
{
    let x = alpha_pow(e);
    let f = ((255 - e) % 255) as nat;
    lemma_log_two();
    assert(gf_pow(2, -e) == alpha_pow(f));
    let r = alpha_pow(f);
    let xl = gf_power(x, l);
    lemma_ascending_power(c, r, l + 1);
    let g = |i: int| gf_mul(c[i], gf_power(r, i as nat));
    let h = |i: int| gf_mul(coef(c, i), gf_power(x, (l - i) as nat));
    assert forall|i: int| 0 <= i < l + 1 implies #[trigger] h(i) == gf_mul(xl, g(i)) by {
        let ii = i as nat;
        lemma_power_of_power(f, ii);
        lemma_power_of_power(e, l);
        lemma_power_of_power(e, (l - i) as nat);
        lemma_mul_powers(f * ii, e * l);
        assert((f * ii + e * l) % 255 == (e * ((l - i) as nat)) % 255) by (nonlinear_arith)
            requires
                f == (255 - e) % 255,
                e < 255,
                0 <= i <= l,
                ii == i,
        ;
        lemma_alpha_mod(f * ii + e * l);
        lemma_alpha_mod(e * ((l - i) as nat));
        law_gf_mul_commutative(gf_power(r, ii), xl);
        law_gf_mul_associative(c[i], gf_power(r, ii), xl);
        law_gf_mul_commutative(xl, g(i));
    }
    lemma_xsum_scale(g, h, xl, l + 1);
    lemma_power_of_power(e, l);
    lemma_alpha_nonzero(e * l);
    if eval_ascending(c, r, l + 1) != 0 {
        lemma_mul_exponent(xl, eval_ascending(c, r, l + 1));
    }
}

/// The Chien search lists every position before `upto` whose root makes `c` vanish.
proof fn lemma_chien_lists(c: Seq<u8>, n: nat, upto: nat, p: int)
    requires
        0 <= p < upto <= n <= 255,
        eval_ascending(c, gf_pow(2, -((n - 1 - p) as nat)), c.len()) == 0,
    ensures
        exists|j: int| 0 <= j < error_positions(c, n, upto).len() && (#[trigger] error_positions(c, n, upto)[j]).0 == p,
    decreases upto,
{
    let prev = error_positions(c, n, (upto - 1) as nat);
    if p < upto - 1 {
        lemma_chien_lists(c, n, (upto - 1) as nat, p);
        let j = choose|j: int| 0 <= j < prev.len() && (#[trigger] prev[j]).0 == p;
        assert(error_positions(c, n, upto)[j] == prev[j]);
    } else {
        let e = n - 1 - p;
        assert(-e == -((n - 1 - p) as nat));
        assert(eval_ascending(c, gf_pow(2, -e), c.len()) == 0);
        assert(error_positions(c, n, upto) == prev.push((p as usize, gf_pow(2, -e), gf_pow(2, e))));
        assert(error_positions(c, n, upto)[prev.len() as int].0 == p);
    }
}

/// With at most 16 of at most 255 bytes damaged, the Chien search on the
/// locator that Berlekamp–Massey gives for 32 syndromes lists every byte that
/// differs from the codeword sent, and the locator is no longer than the
/// damage is wide.
pub proof fn law_chien_finds_damage(
    sent: Seq<u8>,
    received: Seq<u8>,
    damaged: Seq<int>,
    s: Seq<u8>,
    c: Seq<u8>,
    l: nat,
)
    requires
        received.len() <= 255,
        clean(sent, s.len()),
        differs_only_at(sent, received, damaged),
        positions_in(damaged, received.len()),
        2 * damaged.len() <= s.len(),
        forall|i: int| 0 <= i < s.len() ==> #[trigger] s[i] == syndrome(received, i),
        c.len() == l + 1,
        generates(c, s, l, s.len() as int),
        forall|d: Seq<u8>, l2: nat|
            d.len() >= 1 && d[0] == 1 && #[trigger] generates(d, s, l2, s.len() as int) ==> l2 >= l,
    ensures
        l <= damaged.len(),
        forall|p: int|
            0 <= p < received.len() && sent[p] != received[p] ==> exists|j: int|
                0 <= j < error_positions(c, received.len(), received.len()).len() && (#[trigger] error_positions(
                    c,
                    received.len(),
                    received.len(),
                )[j]).0 == p,
{
    let n = received.len();
    law_locator_vanishes_at_damage(sent, received, damaged, s, c, l);
    assert forall|p: int| 0 <= p < n && sent[p] != received[p] implies exists|j: int|
        0 <= j < error_positions(c, n, n).len() && (#[trigger] error_positions(c, n, n)[j]).0 == p by {
        assert(reversed_eval(c, l, locator(n, p)) == 0);
        lemma_reversed_root(c, l, (n - 1 - p) as nat);
        lemma_chien_lists(c, n, n, p);
    }
}


/// Horner's sum of `c` from coefficient `i` up, at `r`: `c[i] + r * (c[i + 1] + r * ...)`.
pub open spec fn horner_from(c: Seq<u8>, r: u8, i: int) -> u8
    decreases c.len() - i,
{
    if i < 0 || i >= c.len() {
        0
    } else {
        c[i] ^ gf_mul(r, horner_from(c, r, i + 1))
    }
}

/// The quotient of `c` by `x + r`, lowest degree first.
pub open spec fn quotient(c: Seq<u8>, r: u8) -> Seq<u8> {
    Seq::new((c.len() - 1) as nat, |i: int| horner_from(c, r, i + 1))
}

/// The value of `c` is its low terms plus `r^k` times Horner's sum from `k`.
proof fn lemma_horner_split(c: Seq<u8>, r: u8, k: nat)
    requires
        k <= c.len(),
    ensures
        eval_ascending(c, r, c.len()) == eval_ascending(c, r, k) ^ gf_mul(gf_power(r, k), horner_from(c, r, k as int)),
    decreases c.len() - k,
{
    let rk = gf_power(r, k);
    if k == c.len() {
        law_gf_mul_unit(rk);
        lemma_xor_facts(eval_ascending(c, r, k), 0, 0, 0);
    } else {
        lemma_horner_split(c, r, k + 1);
        let h1 = horner_from(c, r, (k + 1) as int);
        let ck = c[k as int];
        assert(horner_from(c, r, k as int) == ck ^ gf_mul(r, h1));
        assert(gf_power(r, k + 1) == gf_mul(rk, r));
        law_gf_mul_distributive(rk, ck, gf_mul(r, h1));
        law_gf_mul_associative(rk, r, h1);
        law_gf_mul_commutative(rk, ck);
        assert(eval_ascending(c, r, k + 1) == eval_ascending(c, r, k) ^ gf_mul(ck, rk));
        lemma_xor_facts(eval_ascending(c, r, k), gf_mul(ck, rk), gf_mul(gf_mul(rk, r), h1), 0);
    }
}

/// Where `r` is a root of `c`, `c` is `x + r` times its quotient.
pub proof fn lemma_quotient_times(c: Seq<u8>, r: u8)
    requires
        c.len() >= 2,
        eval_ascending(c, r, c.len()) == 0,
    ensures
        times_linear(quotient(c, r), r) == c,
{
    let q = quotient(c, r);
    let m = times_linear(q, r);
    lemma_horner_split(c, r, 0);
    law_gf_mul_unit(horner_from(c, r, 0));
    lemma_xor_facts(horner_from(c, r, 0), 0, 0, 0);
    assert forall|t: int| 0 <= t < c.len() implies #[trigger] m[t] == c[t] by {
        let h = horner_from(c, r, t + 1);
        let x = gf_mul(r, h);
        law_gf_mul_commutative(h, r);
        // x ^ (c ^ x) == c, and c ^ x == 0 gives x == c.
        lemma_xor_facts(x, c[t] ^ x, 0, 0);
        lemma_xor_facts(c[t], x, x, 0);
        lemma_xor_facts(c[t], 0, 0, 0);
        lemma_xor_facts(x, 0, 0, 0);
        if t == c.len() - 1 {
            law_gf_mul_unit(r);
            assert(h == 0);
            assert(q[t - 1] == horner_from(c, r, t));
            assert(horner_from(c, r, t) == c[t] ^ x);
            lemma_xor_facts(q[t - 1], 0, 0, 0);
            assert(m[t] == 0u8 ^ q[t - 1]);
        } else if t == 0 {
            assert(horner_from(c, r, 0) == c[0] ^ x);
            assert(q[0] == h);
            assert(m[t] == gf_mul(q[0], r) ^ 0u8);
            lemma_xor_facts(gf_mul(q[0], r), 0, 0, 0);
            assert((c[0] ^ x) ^ x == c[0] ^ (x ^ x));
        } else {
            assert(q[t] == h);
            assert(q[t - 1] == horner_from(c, r, t));
            assert(horner_from(c, r, t) == c[t] ^ x);
            assert(m[t] == gf_mul(q[t], r) ^ q[t - 1]);
            assert(x ^ (c[t] ^ x) == (c[t] ^ x) ^ x);
        }
    }
    assert(m =~= c);
}

/// A polynomial with a non-zero coefficient has no more distinct roots than its degree.
pub proof fn lemma_root_count(c: Seq<u8>, roots: Seq<u8>)
    requires
        c.len() >= 1,
        exists|i: int| 0 <= i < c.len() && c[i] != 0,
        forall|a: int, b: int| 0 <= a < b < roots.len() ==> roots[a] != roots[b],
        forall|k: int| 0 <= k < roots.len() ==> eval_ascending(c, #[trigger] roots[k], c.len()) == 0,
    ensures
        roots.len() <= c.len() - 1,
    decreases roots.len(),
{
    if roots.len() > 0 {
        let r = roots.last();
        if c.len() == 1 {
            law_gf_mul_unit(c[0]);
            lemma_xor_facts(c[0], 0, 0, 0);
            assert(eval_ascending(c, r, 0) == 0);
            assert(gf_power(r, 0) == 1);
            assert(eval_ascending(c, r, 1) == 0u8 ^ gf_mul(c[0], gf_power(r, 0)));
            assert(eval_ascending(c, r, c.len()) == 0);
            assert(false);
        } else {
            let q = quotient(c, r);
            lemma_quotient_times(c, r);
            if forall|i: int| 0 <= i < q.len() ==> q[i] == 0 {
                let i = choose|i: int| 0 <= i < c.len() && c[i] != 0;
                law_gf_mul_unit(r);
                lemma_xor_facts(0, 0, 0, 0);
                assert(times_linear(q, r)[i] == c[i]);
                assert(false);
            }
            let rest = roots.drop_last();
            assert forall|k: int| 0 <= k < rest.len() implies eval_ascending(q, #[trigger] rest[k], q.len()) == 0 by {
                let y = rest[k];
                assert(roots[k] == y);
                assert(y != r);
                lemma_times_linear_eval(q, r, y);
                lemma_xor_facts(y, r, r, 0);
                lemma_xor_facts(r, 0, 0, 0);
                if y ^ r == 0 {
                    lemma_xor_facts(y, 0, 0, 0);
                    assert(y == (y ^ r) ^ r);
                }
                if eval_ascending(q, y, q.len()) != 0 {
                    lemma_mul_exponent(eval_ascending(q, y, q.len()), y ^ r);
                }
            }
            lemma_root_count(q, rest);
        }
    }
}


/// The Chien search's list, position by position: increasing positions,
/// each with the root tried there, a root of `c`.
pub proof fn lemma_error_positions_shape(c: Seq<u8>, n: nat, upto: nat)
    requires
        upto <= n <= 255,
    ensures
        forall|k: int|
            0 <= k < error_positions(c, n, upto).len() ==> {
                let entry = #[trigger] error_positions(c, n, upto)[k];
                &&& entry.0 < upto
                &&& entry.1 == gf_pow(2, -(n - 1 - entry.0))
                &&& entry.2 == gf_pow(2, n - 1 - entry.0)
                &&& eval_ascending(c, entry.1, c.len()) == 0
            },
        forall|a: int, b: int|
            0 <= a < b < error_positions(c, n, upto).len() ==> (#[trigger] error_positions(c, n, upto)[a]).0
                < (#[trigger] error_positions(c, n, upto)[b]).0,
    decreases upto,
{
    if upto > 0 {
        let u1 = (upto - 1) as nat;
        lemma_error_positions_shape(c, n, u1);
        let prev = error_positions(c, n, u1);
        let cur = error_positions(c, n, upto);
        let idx = upto - 1;
        let ex = n - 1 - idx;
        let root = gf_pow(2, -ex);
        if eval_ascending(c, root, c.len()) == 0 {
            let entry = (idx as usize, root, gf_pow(2, ex));
            assert(cur == prev.push(entry));
            assert(entry.0 == idx);
            assert forall|k: int| 0 <= k < cur.len() implies {
                let en = #[trigger] cur[k];
                &&& en.0 < upto
                &&& en.1 == gf_pow(2, -(n - 1 - en.0))
                &&& en.2 == gf_pow(2, n - 1 - en.0)
                &&& eval_ascending(c, en.1, c.len()) == 0
            } by {
                if k < prev.len() {
                    assert(cur[k] == prev[k]);
                }
            }
            assert forall|a: int, b: int| 0 <= a < b < cur.len() implies (#[trigger] cur[a]).0 < (#[trigger] cur[b]).0 by {
                assert(cur[a] == prev[a]);
                if b < prev.len() {
                    assert(cur[b] == prev[b]);
                }
            }
        } else {
            assert(cur == prev);
        }
    }
}

/// Different positions of a word of at most 255 bytes have different Chien roots.
pub proof fn lemma_roots_distinct(n: nat, a: int, b: int)
    requires
        0 <= a < b < n <= 255,
    ensures
        gf_pow(2, -(n - 1 - a)) != gf_pow(2, -(n - 1 - b)),
{
    lemma_log_two();
    let ea = n - 1 - a;
    let eb = n - 1 - b;
    let fa = ((255 - ea % 255) % 255) as nat;
    let fb = ((255 - eb % 255) % 255) as nat;
    assert(gf_pow(2, -ea) == alpha_pow(fa)) by {
        if ea == 0 {
            assert(fa == 0);
        }
    }
    assert(gf_pow(2, -eb) == alpha_pow(fb)) by {
        if eb == 0 {
            assert(fb == 0);
        }
    }
    lemma_powers_distinct(fa, fb);
}

/// With at most 16 of at most 255 bytes damaged, the Chien search on the
/// locator that Berlekamp–Massey gives lists exactly as many positions as
/// the locator is long, among them every byte that differs from the
/// codeword sent.
pub proof fn law_chien_lists_exactly(
    sent: Seq<u8>,
    received: Seq<u8>,
    damaged: Seq<int>,
    s: Seq<u8>,
    c: Seq<u8>,
    l: nat,
)
    requires
        received.len() <= 255,
        clean(sent, s.len()),
        differs_only_at(sent, received, damaged),
        positions_in(damaged, received.len()),
        2 * damaged.len() <= s.len(),
        forall|i: int| 0 <= i < s.len() ==> #[trigger] s[i] == syndrome(received, i),
        c.len() == l + 1,
        c[0] == 1,
        generates(c, s, l, s.len() as int),
        forall|d: Seq<u8>, l2: nat|
            d.len() >= 1 && d[0] == 1 && #[trigger] generates(d, s, l2, s.len() as int) ==> l2 >= l,
    ensures
        l <= damaged.len(),
        error_positions(c, received.len(), received.len()).len() == l,
        forall|p: int|
            0 <= p < received.len() && sent[p] != received[p] ==> exists|j: int|
                0 <= j < error_positions(c, received.len(), received.len()).len() && (#[trigger] error_positions(
                    c,
                    received.len(),
                    received.len(),
                )[j]).0 == p,
{
    let n = received.len();
    let e = error_positions(c, n, n);
    law_chien_finds_damage(sent, received, damaged, s, c, l);
    lemma_error_positions_shape(c, n, n);
    let roots = Seq::new(e.len(), |k: int| e[k].1);
    assert forall|a: int, b: int| 0 <= a < b < roots.len() implies roots[a] != roots[b] by {
        assert(e[a].0 < e[b].0);
        lemma_roots_distinct(n, e[a].0 as int, e[b].0 as int);
    }
    assert forall|k: int| 0 <= k < roots.len() implies eval_ascending(c, #[trigger] roots[k], c.len()) == 0 by {
        assert(roots[k] == e[k].1);
    }
    assert(c[0] != 0);
    lemma_root_count(c, roots);
    let ep = Seq::new(e.len(), |k: int| e[k].0 as int);
    assert forall|t: int| 0 <= t < sent.len() && sent[t] != received[t] implies exists|k: int| 0 <= k < ep.len() && ep[k] == t by {
        let j = choose|j: int| 0 <= j < e.len() && (#[trigger] e[j]).0 == t;
        assert(ep[j] == t);
    }
    assert forall|k: int| 0 <= k < ep.len() implies 0 <= #[trigger] ep[k] < n by {
        assert(e[k].0 < n);
    }
    law_chien_finds_damage(sent, received, ep, s, c, l);
}

} // verus!
