//! Why systematic encoding gives codewords: evaluation is linear, the long
//! division by the generator leaves the value at each root unchanged, and
//! the generator vanishes at its roots; so every encoded block has zero
//! syndromes.
use vstd::prelude::*;
use crate::gf_laws::{
    law_gf_mul_associative, law_gf_mul_commutative, law_gf_mul_distributive, law_gf_mul_unit, lemma_xor_facts,
};
use crate::rs_code::{clean, disc, generates, syndrome};
use crate::rs_distance::{lemma_xsum_ext, lemma_xsum_scale, lemma_xsum_single, lemma_xsum_swap, lemma_xsum_zero, xsum};
use crate::rs_field::{gf_mul, gf_pow};
use crate::rs_poly::{conv_upto, division_step, division_upto, eval_descending, generator, poly_product, rs_codeword};

verus! {

/// Evaluation reads only the coefficients it is given.
pub proof fn lemma_eval_prefix(p: Seq<u8>, q: Seq<u8>, x: u8, n: nat)
    requires
        n <= p.len(),
        n <= q.len(),
        forall|t: int| 0 <= t < n ==> p[t] == q[t],
    ensures
        eval_descending(p, x, n) == eval_descending(q, x, n),
    decreases n,
{
    if n > 0 {
        lemma_eval_prefix(p, q, x, (n - 1) as nat);
    }
}

/// Evaluation is linear: the value of a coefficientwise sum is the sum of the values.
pub proof fn lemma_eval_xor(p: Seq<u8>, q: Seq<u8>, s: Seq<u8>, x: u8, n: nat)
    requires
        n <= p.len(),
        n <= q.len(),
        n <= s.len(),
        forall|t: int| 0 <= t < n ==> s[t] == p[t] ^ q[t],
    ensures
        eval_descending(s, x, n) == eval_descending(p, x, n) ^ eval_descending(q, x, n),
    decreases n,
{
    lemma_xor_facts(0, 0, 0, 0);
    if n > 0 {
        let m = (n - 1) as nat;
        lemma_eval_xor(p, q, s, x, m);
        let ep = eval_descending(p, x, m);
        let eq = eval_descending(q, x, m);
        law_gf_mul_distributive(x, ep, eq);
        law_gf_mul_commutative(x, ep ^ eq);
        law_gf_mul_commutative(x, ep);
        law_gf_mul_commutative(x, eq);
        lemma_xor_facts(gf_mul(ep, x), gf_mul(eq, x), p[m as int], q[m as int]);
    }
}

/// Evaluation commutes with scaling by a constant.
pub proof fn lemma_eval_scale(p: Seq<u8>, s: Seq<u8>, c: u8, x: u8, n: nat)
    requires
        n <= p.len(),
        n <= s.len(),
        forall|t: int| 0 <= t < n ==> s[t] == gf_mul(c, p[t]),
    ensures
        eval_descending(s, x, n) == gf_mul(c, eval_descending(p, x, n)),
    decreases n,
{
    law_gf_mul_unit(c);
    if n > 0 {
        let m = (n - 1) as nat;
        lemma_eval_scale(p, s, c, x, m);
        let ep = eval_descending(p, x, m);
        law_gf_mul_associative(c, ep, x);
        law_gf_mul_distributive(c, gf_mul(ep, x), p[m as int]);
    }
}

/// A leading zero coefficient does not change the value.
pub proof fn lemma_eval_leading_zero(p: Seq<u8>, s: Seq<u8>, x: u8, n: nat)
    requires
        n <= p.len(),
        n + 1 <= s.len(),
        s[0] == 0,
        forall|t: int| 0 <= t < n ==> s[t + 1] == p[t],
    ensures
        eval_descending(s, x, n + 1) == eval_descending(p, x, n),
    decreases n,
{
    law_gf_mul_unit(x);
    lemma_xor_facts(0, 0, 0, 0);
    if n > 0 {
        let m = (n - 1) as nat;
        lemma_eval_leading_zero(p, s, x, m);
        assert(s[(m + 1) as int] == p[m as int]);
    } else {
        assert(eval_descending(s, x, 1) == gf_mul(eval_descending(s, x, 0), x) ^ s[0]);
    }
}

/// `g` times `c`, shifted to start at `i`, in a word of `len` coefficients.
pub open spec fn shifted_multiple(g: Seq<u8>, c: u8, i: int, len: nat) -> Seq<u8> {
    Seq::new(len, |t: int| if i <= t < i + g.len() { gf_mul(g[t - i], c) } else { 0u8 })
}

proof fn lemma_eval_shifted(g: Seq<u8>, c: u8, i: nat, len: nat, x: u8, m: nat)
    requires
        i + g.len() <= len,
        m <= len,
        eval_descending(g, x, g.len()) == 0,
    ensures
        eval_descending(shifted_multiple(g, c, i as int, len), x, m) == (if m <= i {
            0u8
        } else if m <= i + g.len() {
            gf_mul(c, eval_descending(g, x, (m - i) as nat))
        } else {
            0u8
        }),
    decreases m,
{
    let d = shifted_multiple(g, c, i as int, len);
    law_gf_mul_unit(x);
    law_gf_mul_unit(c);
    lemma_xor_facts(0, 0, 0, 0);
    if m > 0 {
        let k = (m - 1) as nat;
        lemma_eval_shifted(g, c, i, len, x, k);
        if m <= i {
        } else if m <= i + g.len() {
            let eg = eval_descending(g, x, (k - i) as nat);
            let gk = g[k - i];
            assert(d[k as int] == gf_mul(gk, c));
            assert(eval_descending(d, x, k) == gf_mul(c, eg));
            law_gf_mul_associative(c, eg, x);
            law_gf_mul_distributive(c, gf_mul(eg, x), gk);
            law_gf_mul_commutative(gk, c);
            assert(eval_descending(g, x, (m - i) as nat) == gf_mul(eg, x) ^ gk);
        } else {
            assert(d[k as int] == 0);
        }
    }
}

/// One step of the long division keeps the value at every root of `g`.
proof fn lemma_step_keeps_eval(state: Seq<u8>, g: Seq<u8>, i: nat, x: u8)
    requires
        g.len() >= 1,
        i + g.len() <= state.len(),
        eval_descending(g, x, g.len()) == 0,
    ensures
        division_step(state, g, i as int).len() == state.len(),
        eval_descending(division_step(state, g, i as int), x, state.len()) == eval_descending(state, x, state.len()),
{
    let c = state[i as int];
    if c != 0 {
        let len = state.len();
        let s = division_step(state, g, i as int);
        let d = shifted_multiple(g, c, i as int, len);
        assert forall|t: int| 0 <= t < len implies s[t] == state[t] ^ d[t] by {
            lemma_xor_facts(state[t], 0, 0, 0);
        }
        lemma_eval_xor(state, d, s, x, len);
        lemma_eval_shifted(g, c, i, len, x, len);
        law_gf_mul_unit(c);
        lemma_xor_facts(eval_descending(state, x, len), 0, 0, 0);
    }
}

/// The long division keeps the value at every root of `g`, and the length.
proof fn lemma_division_keeps_eval(data: Seq<u8>, g: Seq<u8>, i: nat, x: u8)
    requires
        g.len() >= 1,
        i <= data.len(),
        eval_descending(g, x, g.len()) == 0,
    ensures
        division_upto(data, g, i).len() == data.len() + g.len() - 1,
        eval_descending(division_upto(data, g, i), x, (data.len() + g.len() - 1) as nat) == eval_descending(
            division_upto(data, g, 0),
            x,
            (data.len() + g.len() - 1) as nat,
        ),
    decreases i,
{
    if i > 0 {
        lemma_division_keeps_eval(data, g, (i - 1) as nat, x);
        lemma_step_keeps_eval(division_upto(data, g, (i - 1) as nat), g, (i - 1) as nat, x);
    }
}

/// With a monic `g`, the first `i` division steps clear the first `i` coefficients.
proof fn lemma_division_clears_prefix(data: Seq<u8>, g: Seq<u8>, i: nat)
    requires
        g.len() >= 1,
        g[0] == 1,
        i <= data.len(),
    ensures
        division_upto(data, g, i).len() == data.len() + g.len() - 1,
        forall|t: int| 0 <= t < i ==> #[trigger] division_upto(data, g, i)[t] == 0,
    decreases i,
{
    if i > 0 {
        let k = (i - 1) as nat;
        lemma_division_clears_prefix(data, g, k);
        let prev = division_upto(data, g, k);
        let c = prev[k as int];
        law_gf_mul_unit(c);
        lemma_xor_facts(c, 0, 0, 0);
        assert forall|t: int| 0 <= t < i implies #[trigger] division_upto(data, g, i)[t] == 0 by {
            if t < k {
                assert(prev[t] == 0);
            }
        }
    }
}

/// The systematic codeword vanishes at every root of a monic `g`.
pub proof fn lemma_codeword_vanishes(data: Seq<u8>, g: Seq<u8>, x: u8)
    requires
        g.len() >= 1,
        g[0] == 1,
        eval_descending(g, x, g.len()) == 0,
    ensures
        rs_codeword(data, g).len() == data.len() + g.len() - 1,
        eval_descending(rs_codeword(data, g), x, rs_codeword(data, g).len()) == 0,
{
    let k = data.len();
    let len = (k + g.len() - 1) as nat;
    let p0 = division_upto(data, g, 0);
    let f = division_upto(data, g, k);
    let w = rs_codeword(data, g);
    lemma_division_keeps_eval(data, g, k, x);
    lemma_division_clears_prefix(data, g, k);
    assert(p0.len() == len);
    assert forall|t: int| 0 <= t < len implies w[t] == p0[t] ^ f[t] by {
        if t < k {
            assert(f[t] == 0);
            lemma_xor_facts(data[t], 0, 0, 0);
        } else {
            lemma_xor_facts(f[t], 0, 0, 0);
        }
    }
    lemma_eval_xor(p0, f, w, x, len);
    lemma_xor_facts(eval_descending(p0, x, len), 0, 0, 0);
}

/// A coefficient of the product by a polynomial of two coefficients.
proof fn lemma_conv_two(a: Seq<u8>, b: Seq<u8>, k: int, n: nat)
    requires
        b.len() == 2,
        n <= a.len(),
    ensures
        conv_upto(a, b, k, n) == (if 0 <= k < n { gf_mul(a[k], b[0]) } else { 0u8 }) ^ (if 0 <= k - 1 < n {
            gf_mul(a[k - 1], b[1])
        } else {
            0u8
        }),
    decreases n,
{
    lemma_xor_facts(0, 0, 0, 0);
    if n > 0 {
        let m = (n - 1) as nat;
        lemma_conv_two(a, b, k, m);
        let xm = if 0 <= k < m { gf_mul(a[k], b[0]) } else { 0u8 };
        let ym = if 0 <= k - 1 < m { gf_mul(a[k - 1], b[1]) } else { 0u8 };
        let t = if 0 <= k - m < 2 { gf_mul(a[m as int], b[k - m]) } else { 0u8 };
        lemma_xor_facts(xm, ym, t, 0);
        lemma_xor_facts(0, ym, t, 0);
        lemma_xor_facts(ym, t, 0, 0);
        lemma_xor_facts(t, 0, 0, 0);
        lemma_xor_facts(xm, 0, 0, 0);
        lemma_xor_facts(xm ^ ym, 0, 0, 0);
    }
}

/// The generator has `n + 1` coefficients, the first 1.
pub proof fn lemma_generator_shape(n: nat)
    ensures
        generator(n).len() == n + 1,
        generator(n)[0] == 1,
    decreases n,
{
    if n > 0 {
        lemma_generator_shape((n - 1) as nat);
        let g = generator((n - 1) as nat);
        let b = seq![1u8, gf_pow(2, (n - 1) as int)];
        lemma_conv_two(g, b, 0, g.len());
        law_gf_mul_unit(1);
        lemma_xor_facts(1, 0, 0, 0);
    }
}

/// The generator with `n` roots vanishes at 2^j for each `j < n`.
pub proof fn lemma_generator_root(n: nat, j: nat)
    requires
        j < n,
    ensures
        eval_descending(generator(n), gf_pow(2, j as int), n + 1) == 0,
    decreases n,
{
    let m = (n - 1) as nat;
    let g = generator(m);
    let c = gf_pow(2, m as int);
    let r = gf_pow(2, j as int);
    let b = seq![1u8, c];
    let p = generator(n);
    lemma_generator_shape(m);
    lemma_generator_shape(n);
    assert(p == poly_product(g, b));
    let g1 = Seq::new(n + 1, |t: int| if t < n { g[t] } else { 0u8 });
    let cg = Seq::new(n, |t: int| gf_mul(c, g[t]));
    let sh = Seq::new(n + 1, |t: int| if t >= 1 { gf_mul(c, g[t - 1]) } else { 0u8 });
    assert forall|t: int| 0 <= t < n + 1 implies p[t] == g1[t] ^ sh[t] by {
        lemma_conv_two(g, b, t, g.len());
        if t < n {
            law_gf_mul_unit(g[t]);
        }
        if t >= 1 {
            law_gf_mul_commutative(g[t - 1], c);
        }
        lemma_xor_facts(g1[t], 0, 0, 0);
        lemma_xor_facts(0, sh[t], 0, 0);
    }
    lemma_eval_xor(g1, sh, p, r, n + 1);
    lemma_eval_prefix(g1, g, r, n);
    let e = eval_descending(g, r, n);
    lemma_xor_facts(gf_mul(e, r), 0, 0, 0);
    assert(eval_descending(g1, r, n + 1) == gf_mul(e, r));
    lemma_eval_leading_zero(cg, sh, r, n);
    lemma_eval_scale(g, cg, c, r, n);
    law_gf_mul_commutative(c, e);
    law_gf_mul_distributive(e, r, c);
    law_gf_mul_unit(e);
    lemma_xor_facts(r, 0, 0, 0);
    if j == m {
        assert(r == c);
    } else {
        lemma_generator_root(m, j);
        law_gf_mul_commutative(0, r ^ c);
    }
}

/// Every systematic codeword under the generator with `nsym` roots has zero
/// syndromes.
pub proof fn lemma_codeword_clean(data: Seq<u8>, nsym: nat)
    ensures
        clean(rs_codeword(data, generator(nsym)), nsym),
{
    let g = generator(nsym);
    lemma_generator_shape(nsym);
    assert forall|i: int| 0 <= i < nsym implies #[trigger] syndrome(rs_codeword(data, g), i) == 0 by {
        lemma_generator_root(nsym, i as nat);
        lemma_codeword_vanishes(data, g, gf_pow(2, i));
    }
}

/// Coefficients that are zero add nothing to a combination.
pub proof fn lemma_disc_zero_tail(c: Seq<u8>, s: Seq<u8>, j: int, k1: nat, k2: nat)
    requires
        k1 <= k2,
        forall|i: int| k1 <= i < k2 && i < c.len() ==> c[i] == 0,
    ensures
        disc(c, s, j, k2) == disc(c, s, j, k1),
    decreases k2,
{
    if k2 > k1 {
        lemma_disc_zero_tail(c, s, j, k1, (k2 - 1) as nat);
        let i = k2 - 1;
        if i < c.len() && 0 <= j - i < s.len() {
            law_gf_mul_unit(s[j - i]);
        }
        lemma_xor_facts(disc(c, s, j, (k2 - 1) as nat), 0, 0, 0);
    }
}

/// A combination reads only the coefficients below `k`.
pub proof fn lemma_disc_prefix(c: Seq<u8>, c2: Seq<u8>, s: Seq<u8>, j: int, k: nat)
    requires
        k <= c.len(),
        k <= c2.len(),
        forall|i: int| 0 <= i < k ==> c[i] == c2[i],
    ensures
        disc(c, s, j, k) == disc(c2, s, j, k),
    decreases k,
{
    if k > 0 {
        lemma_disc_prefix(c, c2, s, j, (k - 1) as nat);
    }
}

/// The combination of `c` plus `scale` times `b` shifted up by `m`: the
/// combination of `c` plus `scale` times that of `b` at `j - m`.
pub proof fn lemma_disc_update(c: Seq<u8>, b: Seq<u8>, c2: Seq<u8>, scale: u8, m: nat, s: Seq<u8>, j: int, k: nat)
    requires
        c2.len() == c.len(),
        k <= c.len(),
        k <= b.len() + m,
        forall|i: int| 0 <= i < c.len() ==> #[trigger] c2[i] == c[i] ^ (if m <= i && i - m < b.len() {
            gf_mul(scale, b[i - m])
        } else {
            0u8
        }),
    ensures
        disc(c2, s, j, k) == disc(c, s, j, k) ^ (if k <= m { 0u8 } else { gf_mul(scale, disc(b, s, j - m, (k - m) as nat)) }),
    decreases k,
{
    lemma_xor_facts(0, 0, 0, 0);
    law_gf_mul_unit(scale);
    if k > 0 {
        let i = k - 1;
        lemma_disc_update(c, b, c2, scale, m, s, j, i as nat);
        let dc = disc(c, s, j, i as nat);
        let dprev = if i < m { 0u8 } else { disc(b, s, j - m, (i - m) as nat) };
        let db = if i <= m { 0u8 } else { gf_mul(scale, dprev) };
        assert(i == m ==> dprev == 0);
        assert(db == if i < m { 0u8 } else { gf_mul(scale, dprev) });
        lemma_xor_facts(dc, 0, 0, 0);
        lemma_xor_facts(db, 0, 0, 0);
        lemma_xor_facts(dprev, 0, 0, 0);
        if 0 <= j - i < s.len() {
            let sv = s[j - i];
            let tc = gf_mul(c[i], sv);
            lemma_xor_facts(tc, 0, 0, 0);
            lemma_xor_facts(dc ^ tc, 0, 0, 0);
            if m <= i {
                let bv = b[i - m];
                let x = gf_mul(scale, gf_mul(bv, sv));
                assert(c2[i] == c[i] ^ gf_mul(scale, bv));
                law_gf_mul_distributive(sv, c[i], gf_mul(scale, bv));
                law_gf_mul_commutative(sv, c[i]);
                law_gf_mul_commutative(sv, c2[i]);
                law_gf_mul_commutative(sv, gf_mul(scale, bv));
                law_gf_mul_associative(scale, bv, sv);
                assert(gf_mul(c2[i], sv) == tc ^ x);
                assert(disc(b, s, j - m, (k - m) as nat) == dprev ^ gf_mul(bv, sv));
                law_gf_mul_distributive(scale, dprev, gf_mul(bv, sv));
                lemma_xor_facts(dc, db, tc, x);
            } else {
                assert(c2[i] == c[i] ^ 0u8);
                lemma_xor_facts(c[i], 0, 0, 0);
                assert(disc(c2, s, j, k) == (dc ^ db) ^ tc);
            }
        } else {
            if m <= i {
                assert(disc(b, s, j - m, (k - m) as nat) == dprev ^ 0u8);
            }
            assert(disc(c2, s, j, k) == (dc ^ db) ^ 0u8);
            assert(disc(c, s, j, k) == dc ^ 0u8);
            lemma_xor_facts(dc ^ db, 0, 0, 0);
        }
    }
}

/// The coefficient `i` of `c`, 0 past its end.
pub open spec fn coef(c: Seq<u8>, i: int) -> u8 {
    if 0 <= i < c.len() {
        c[i]
    } else {
        0u8
    }
}

/// A combination is the sum of its terms.
pub proof fn lemma_disc_as_sum(c: Seq<u8>, s: Seq<u8>, j: int, k: nat)
    ensures
        disc(c, s, j, k) == xsum(|i: int| gf_mul(coef(c, i), coef(s, j - i)), k),
    decreases k,
{
    if k > 0 {
        lemma_disc_as_sum(c, s, j, (k - 1) as nat);
        let i = k - 1;
        law_gf_mul_unit(coef(c, i));
        law_gf_mul_unit(coef(s, j - i));
    }
}

/// Massey's bound: when `c` of length `l` generates the syndromes before
/// `n` but not the one at `n`, every recurrence with constant term 1 that
/// generates them up to `n` has length at least `n + 1 - l`.
pub proof fn lemma_massey_bound(c: Seq<u8>, d: Seq<u8>, s: Seq<u8>, l: nat, l2: nat, n: nat)
    requires
        n < s.len(),
        d.len() >= 1,
        d[0] == 1,
        generates(c, s, l, n as int),
        disc(c, s, n as int, l + 1) != 0,
        generates(d, s, l2, (n + 1) as int),
    ensures
        l2 + l >= n + 1,
{
    if l2 + l <= n {
        let term = |i: int, k: int| gf_mul(coef(c, i), gf_mul(coef(d, k), coef(s, n - i - k)));
        lemma_xsum_swap(term, l + 1, l2 + 1);
        // Summing each row first: `c[i]` times a combination that `d` makes zero.
        let row = |i: int| xsum(|k: int| term(i, k), l2 + 1);
        assert forall|i: int| 0 <= i < l + 1 implies #[trigger] row(i) == 0 by {
            lemma_disc_as_sum(d, s, n - i, l2 + 1);
            assert(disc(d, s, n - i, l2 + 1) == 0);
            lemma_xsum_scale(
                |k: int| gf_mul(coef(d, k), coef(s, (n - i) - k)),
                |k: int| term(i, k),
                coef(c, i),
                l2 + 1,
            );
            law_gf_mul_unit(coef(c, i));
        }
        lemma_xsum_zero(row, l + 1);
        lemma_xsum_ext(row, |i: int| xsum(|k: int| term(i, k), l2 + 1), l + 1);
        // Summing each column first: `d[k]` times a combination of `c`, zero but at `k = 0`.
        let col = |k: int| xsum(|i: int| term(i, k), l + 1);
        assert forall|k: int| 0 <= k < l2 + 1 implies #[trigger] col(k) == gf_mul(coef(d, k), disc(c, s, n - k, l + 1)) by {
            lemma_disc_as_sum(c, s, n - k, l + 1);
            assert forall|i: int| 0 <= i < l + 1 implies #[trigger] term(i, k) == gf_mul(
                coef(d, k),
                gf_mul(coef(c, i), coef(s, (n - k) - i)),
            ) by {
                assert(n - i - k == (n - k) - i);
                law_gf_mul_associative(coef(c, i), coef(d, k), coef(s, n - i - k));
                law_gf_mul_associative(coef(d, k), coef(c, i), coef(s, n - i - k));
                law_gf_mul_commutative(coef(c, i), coef(d, k));
            }
            lemma_xsum_scale(
                |i: int| gf_mul(coef(c, i), coef(s, (n - k) - i)),
                |i: int| term(i, k),
                coef(d, k),
                l + 1,
            );
        }
        assert forall|k: int| 0 <= k < l2 + 1 && k != 0 implies #[trigger] col(k) == 0 by {
            assert(disc(c, s, n - k, l + 1) == 0);
            law_gf_mul_unit(coef(d, k));
        }
        lemma_xsum_single(col, l2 + 1, 0);
        law_gf_mul_unit(disc(c, s, n as int, l + 1));
        lemma_xsum_ext(col, |k: int| xsum(|i: int| term(i, k), l + 1), l2 + 1);
        assert(false);
    }
}

} // verus!
