//! The Reed–Solomon code over GF(256) used for error correction: blocks of
//! 223 data bytes and 32 parity bytes (the last block shortened to the data
//! left), decoded with Berlekamp–Massey, a Chien search and Forney's formula.
use vstd::prelude::*;
use crate::hamming::BlockStatus;
use crate::gf_laws::{law_gf_div_mul, law_gf_mul_unit, lemma_xor_facts};
use crate::rs_field::{gf_div, gf_mul, gf_pow, Gf256};
use crate::rs_distance::{differs_only_at, lemma_close_codewords_equal, locator, positions_in};
use crate::rs_forney::{law_forney, lemma_root_times_locator, lemma_simple_roots};
use crate::rs_locate::{law_chien_lists_exactly, lemma_error_positions_shape, lemma_roots_distinct};
use crate::rs_laws::{lemma_disc_prefix, lemma_disc_update, lemma_disc_zero_tail, lemma_massey_bound};
use crate::rs_poly::{
    eval_ascending, eval_descending, poly_eval_ascending, poly_eval_descending, poly_formal_derivative, poly_mul,
};

verus! {

pub const DATA_SYMBOLS: usize = 223;
pub const PARITY_SYMBOLS: usize = 32;
pub const CODEWORD_SYMBOLS: usize = 255;

/// Counts of the blocks an error-correcting decoder went through.
#[derive(Debug, Clone, Copy, PartialEq, Eq, Structural)]
pub struct FecReport {
    pub blocks_processed: u64,
    pub blocks_corrected: u64,
    pub blocks_uncorrectable: u64,
}

impl Default for FecReport {
    fn default() -> (r: FecReport)
        ensures
            r.blocks_processed == 0 && r.blocks_corrected == 0 && r.blocks_uncorrectable == 0,
    {
        FecReport { blocks_processed: 0, blocks_corrected: 0, blocks_uncorrectable: 0 }
    }
}

/// Syndrome `i` of the received word `w` (highest degree first): its value at 2^i.
pub open spec fn syndrome(w: Seq<u8>, i: int) -> u8 {
    eval_descending(w, gf_pow(2, i), w.len())
}

/// `w` is a codeword: its first `nsym` syndromes are zero.
pub open spec fn clean(w: Seq<u8>, nsym: nat) -> bool {
    forall|i: int| 0 <= i < nsym ==> #[trigger] syndrome(w, i) == 0
}

/// The error locations that the Chien search finds among the first `upto`
/// positions of a word of `n` bytes: position, the root 2^-(n-1-idx) of the
/// locator there, and 2^(n-1-idx).
pub open spec fn error_positions(lambda: Seq<u8>, n: nat, upto: nat) -> Seq<(usize, u8, u8)>
    decreases upto,
{
    if upto == 0 {
        seq![]
    } else {
        let idx = upto - 1;
        let e = n - 1 - idx;
        let root = gf_pow(2, -e);
        let prev = error_positions(lambda, n, (upto - 1) as nat);
        if eval_ascending(lambda, root, lambda.len()) == 0 {
            prev.push((idx as usize, root, gf_pow(2, e)))
        } else {
            prev
        }
    }
}

/// The combination of syndromes that the connection polynomial `c` (lowest
/// degree first) forms at position `j`, over its first `k` coefficients:
/// the xor of `c[i] * s[j - i]`.
pub open spec fn disc(c: Seq<u8>, s: Seq<u8>, j: int, k: nat) -> u8
    decreases k,
{
    if k == 0 {
        0
    } else {
        disc(c, s, j, (k - 1) as nat) ^ (if k - 1 < c.len() && 0 <= j - (k - 1) < s.len() {
            gf_mul(c[k - 1], s[j - (k - 1)])
        } else {
            0u8
        })
    }
}

/// `c`, of degree at most `l`, generates the syndromes from `l` up to `upto`:
/// each of them is the combination of the `l` before it.
pub open spec fn generates(c: Seq<u8>, s: Seq<u8>, l: nat, upto: int) -> bool {
    forall|j: int| l <= j < upto ==> #[trigger] disc(c, s, j, l + 1) == 0
}

/// Berlekamp–Massey: the error locator (lowest degree first, constant term
/// 1) of a shortest linear recurrence that generates the syndromes, and its
/// length: no recurrence with constant term 1 that generates them is shorter.
pub fn berlekamp_massey(gf: &Gf256, syndromes: &[u8]) -> (r: (Vec<u8>, usize))
    requires
        gf.wf(),
        syndromes@.len() <= 255,
    ensures
        r.1 <= syndromes@.len(),
        r.0@.len() == r.1 + 1,
        r.0@[0] == 1,
        generates(r.0@, syndromes@, r.1 as nat, syndromes@.len() as int),
        forall|d: Seq<u8>, l2: nat|
            d.len() >= 1 && d[0] == 1 && #[trigger] generates(d, syndromes@, l2, syndromes@.len() as int) ==> l2 >= r.1,
{
    let nsym = syndromes.len();
    let mut lambda: Vec<u8> = Vec::new();
    let mut b: Vec<u8> = Vec::new();
    let mut z: usize = 0;
    while z <= nsym
        invariant
            nsym == syndromes@.len(),
            nsym <= 255,
            z <= nsym + 1,
            lambda@.len() == z,
            b@.len() == z,
            z > 0 ==> lambda@[0] == 1 && b@[0] == 1,
            forall|i: int| 0 < i < z ==> #[trigger] lambda@[i] == 0,
            forall|i: int| 0 < i < z ==> #[trigger] b@[i] == 0,
        decreases nsym + 1 - z,
    {
        if z == 0 {
            lambda.push(1);
            b.push(1);
        } else {
            lambda.push(0);
            b.push(0);
        }
        z += 1;
    }
    let mut l: usize = 0;
    let mut m: usize = 1;
    let mut b_coef: u8 = 1;
    let mut n: usize = 0;
    // The length and the step of the last length change, for `b`.
    let ghost mut lb: nat = 0;
    let ghost mut nb: int = -1;
    while n < nsym
        invariant
            gf.wf(),
            nsym == syndromes@.len(),
            nsym <= 255,
            n <= nsym,
            l <= n,
            1 <= m <= n + 1,
            b_coef != 0,
            lambda@.len() == nsym + 1,
            b@.len() == nsym + 1,
            lambda@[0] == 1,
            b@[0] == 1,
            forall|i: int| l < i <= nsym ==> #[trigger] lambda@[i] == 0,
            forall|i: int| lb < i <= nsym ==> #[trigger] b@[i] == 0,
            generates(lambda@, syndromes@, l as nat, n as int),
            nb >= 0 ==> generates(b@, syndromes@, lb, nb) && disc(b@, syndromes@, nb, lb + 1) == b_coef,
            m == n - nb,
            l == nb + 1 - lb,
            nb < n,
            forall|d: Seq<u8>, l2: nat|
                d.len() >= 1 && d[0] == 1 && #[trigger] generates(d, syndromes@, l2, n as int) ==> l2 >= l,
        decreases nsym - n,
    {
        let ghost old_l = l;
        let mut delta = syndromes[n];
        proof {
            law_gf_mul_unit(syndromes@[n as int]);
            lemma_xor_facts(delta, 0, 0, 0);
            assert(disc(lambda@, syndromes@, n as int, 0) == 0);
            assert(disc(lambda@, syndromes@, n as int, 1) == delta);
        }
        let mut i: usize = 1;
        while i <= l
            invariant
                gf.wf(),
                1 <= i <= l + 1,
                l <= n < nsym,
                nsym == syndromes@.len(),
                lambda@.len() == nsym + 1,
                delta == disc(lambda@, syndromes@, n as int, i as nat),
            decreases l + 1 - i,
        {
            delta = delta ^ gf.mul(lambda[i], syndromes[n - i]);
            i += 1;
        }
        let ghost before = lambda@;
        if delta == 0 {
            m += 1;
        } else {
            let grow = 2 * l <= n;
            let prev_lambda = vstd::slice::slice_to_vec(lambda.as_slice());
            let scale = gf.div(delta, b_coef);
            let room = if lambda.len() >= m { lambda.len() - m } else { 0 };
            let upper = if b.len() < room { b.len() } else { room };
            let mut j: usize = 0;
            while j < upper
                invariant
                    gf.wf(),
                    j <= upper,
                    upper == nsym + 1 - m,
                    b@.len() == nsym + 1,
                    1 <= m <= nsym,
                    lambda@.len() == nsym + 1,
                    before.len() == nsym + 1,
                    forall|t: int| 0 <= t <= nsym ==> #[trigger] lambda@[t] == if m <= t < m + j {
                        before[t] ^ gf_mul(scale, b@[t - m])
                    } else {
                        before[t]
                    },
                decreases upper - j,
            {
                let cur = lambda[j + m];
                let add = gf.mul(scale, b[j]);
                lambda.set(j + m, cur ^ add);
                j += 1;
            }
            let new_l: usize = if grow { n + 1 - l } else { l };
            proof {
                law_gf_div_mul(delta, b_coef);
                law_gf_mul_unit(scale);
                assert forall|t: int| 0 <= t < before.len() implies #[trigger] lambda@[t] == before[t] ^ (if m <= t
                    && t - m < b@.len() {
                    gf_mul(scale, b@[t - m])
                } else {
                    0u8
                }) by {
                    lemma_xor_facts(before[t], 0, 0, 0);
                }
                assert forall|t: int| new_l < t <= nsym implies #[trigger] lambda@[t] == 0 by {
                    assert(before[t] == 0);
                    lemma_xor_facts(0, 0, 0, 0);
                    if m <= t {
                        assert(b@[t - m] == 0);
                    }
                }
                assert forall|jj: int| new_l <= jj < n + 1 implies #[trigger] disc(lambda@, syndromes@, jj, new_l as nat + 1) == 0 by {
                    lemma_disc_update(before, b@, lambda@, scale, m as nat, syndromes@, jj, new_l as nat + 1);
                    lemma_disc_zero_tail(before, syndromes@, jj, l as nat + 1, new_l as nat + 1);
                    lemma_disc_zero_tail(b@, syndromes@, jj - m, lb + 1, (new_l + 1 - m) as nat);
                    let dl = disc(before, syndromes@, jj, l as nat + 1);
                    let dbv = disc(b@, syndromes@, jj - m, lb + 1);
                    if jj < n {
                        assert(dl == 0);
                        assert(dbv == 0);
                    } else {
                        assert(dl == delta);
                        assert(dbv == b_coef);
                    }
                    lemma_xor_facts(dl, 0, 0, 0);
                    lemma_xor_facts(0, 0, 0, 0);
                }
            }
            if grow {
                proof {
                    lb = l as nat;
                    nb = n as int;
                }
                l = new_l;
                b = prev_lambda;
                b_coef = delta;
                m = 1;
            } else {
                m += 1;
            }
            proof {
                assert(generates(lambda@, syndromes@, l as nat, n + 1));
            }
        }
        proof {
            assert forall|d: Seq<u8>, l2: nat|
                d.len() >= 1 && d[0] == 1 && #[trigger] generates(d, syndromes@, l2, n + 1) implies l2 >= l by {
                assert forall|jj: int| l2 <= jj < n implies #[trigger] disc(d, syndromes@, jj, l2 + 1) == 0 by {
                    assert(disc(d, syndromes@, jj, l2 + 1) == 0);
                }
                assert(generates(d, syndromes@, l2, n as int));
                if delta != 0 && 2 * old_l <= n {
                    lemma_massey_bound(before, d, syndromes@, old_l as nat, l2, n as nat);
                }
            }
        }
        n += 1;
    }
    let ghost full = lambda@;
    lambda.truncate(l + 1);
    proof {
        assert forall|jj: int| l <= jj < nsym implies #[trigger] disc(lambda@, syndromes@, jj, l as nat + 1) == 0 by {
            lemma_disc_prefix(lambda@, full, syndromes@, jj, l as nat + 1);
        }
    }
    (lambda, l)
}

/// Chien search: every position of a word of `n` bytes whose locator root
/// makes `lambda` vanish.
pub fn find_errors(gf: &Gf256, lambda: &[u8], n: usize) -> (r: Vec<(usize, u8, u8)>)
    requires
        gf.wf(),
        n <= 255,
    ensures
        r@ == error_positions(lambda@, n as nat, n as nat),
        forall|j: int| 0 <= j < r@.len() ==> (#[trigger] r@[j]).0 < n,
{
    let mut result: Vec<(usize, u8, u8)> = Vec::new();
    let mut idx: usize = 0;
    while idx < n
        invariant
            gf.wf(),
            idx <= n <= 255,
            result@ == error_positions(lambda@, n as nat, idx as nat),
            forall|j: int| 0 <= j < result@.len() ==> (#[trigger] result@[j]).0 < idx,
        decreases n - idx,
    {
        let exponent = (n - 1 - idx) as i32;
        let root = gf.pow(2, -exponent);
        if poly_eval_ascending(gf, lambda, root) == 0 {
            let x_l = gf.pow(2, exponent);
            result.push((idx, root, x_l));
        }
        idx += 1;
    }
    result
}

/// The first `nsym` syndromes of `w`.
fn syndromes_of(gf: &Gf256, w: &[u8], nsym: usize) -> (r: Vec<u8>)
    requires
        gf.wf(),
        w@.len() >= 1,
        nsym <= 255,
    ensures
        r@.len() == nsym,
        forall|i: int| 0 <= i < nsym ==> #[trigger] r@[i] == syndrome(w@, i),
{
    let mut s: Vec<u8> = Vec::new();
    let mut i: usize = 0;
    while i < nsym
        invariant
            gf.wf(),
            w@.len() >= 1,
            i <= nsym <= 255,
            s@.len() == i,
            forall|t: int| 0 <= t < i ==> #[trigger] s@[t] == syndrome(w@, t),
        decreases nsym - i,
    {
        let x = gf.pow(2, i as i32);
        s.push(poly_eval_descending(gf, w, x));
        i += 1;
    }
    s
}

/// All of `s` is zero.
fn all_zero(s: &[u8]) -> (r: bool)
    ensures
        r == forall|i: int| 0 <= i < s@.len() ==> #[trigger] s@[i] == 0,
{
    let mut i: usize = 0;
    while i < s.len()
        invariant
            i <= s@.len(),
            forall|t: int| 0 <= t < i ==> #[trigger] s@[t] == 0,
        decreases s@.len() - i,
    {
        if s[i] != 0 {
            return false;
        }
        i += 1;
    }
    true
}

/// `received` lies within the code's reach of the codeword `sent`: it
/// differs from it only at the positions `damaged`, at most half as many as
/// the `nsym` syndromes.
pub open spec fn block_within_reach(sent: Seq<u8>, received: Seq<u8>, damaged: Seq<int>, nsym: nat) -> bool {
    &&& clean(sent, nsym)
    &&& 2 * damaged.len() <= nsym
    &&& positions_in(damaged, received.len())
    &&& differs_only_at(sent, received, damaged)
}

/// Some codeword is within reach of `received`.
pub open spec fn reachable(received: Seq<u8>, nsym: nat) -> bool {
    exists|sent: Seq<u8>, damaged: Seq<int>| #[trigger] block_within_reach(sent, received, damaged, nsym)
}

/// Two codewords within reach of one word of at most 255 bytes are equal.
proof fn lemma_reach_unique(
    a: Seq<u8>,
    b: Seq<u8>,
    received: Seq<u8>,
    da: Seq<int>,
    db: Seq<int>,
    nsym: nat,
)
    requires
        received.len() <= 255,
        block_within_reach(a, received, da, nsym),
        block_within_reach(b, received, db, nsym),
    ensures
        a == b,
{
    let ps = da + db;
    assert forall|t: int| 0 <= t < a.len() && a[t] != b[t] implies exists|k: int| 0 <= k < ps.len() && ps[k] == t by {
        if a[t] != received[t] {
            let k = choose|k: int| 0 <= k < da.len() && da[k] == t;
            assert(ps[k] == t);
        } else {
            let k = choose|k: int| 0 <= k < db.len() && db[k] == t;
            assert(ps[da.len() + k] == t);
        }
    }
    assert forall|k: int| 0 <= k < ps.len() implies 0 <= #[trigger] ps[k] < a.len() by {
        if k < da.len() {
            assert(ps[k] == da[k]);
        } else {
            assert(ps[k] == db[k - da.len()]);
        }
    }
    lemma_close_codewords_equal(a, b, ps, nsym);
}

/// A recurrence of length 0 with constant term 1 generates only zero syndromes.
proof fn lemma_length_zero_clean(c: Seq<u8>, s: Seq<u8>)
    requires
        c.len() >= 1,
        c[0] == 1,
        generates(c, s, 0, s.len() as int),
    ensures
        forall|j: int| 0 <= j < s.len() ==> #[trigger] s[j] == 0,
{
    assert forall|j: int| 0 <= j < s.len() implies #[trigger] s[j] == 0 by {
        let z: nat = 0;
        assert(disc(c, s, j, z + 1) == 0);
        assert(disc(c, s, j, 0) == 0);
        assert(disc(c, s, j, 1) == 0u8 ^ gf_mul(c[0], s[j]));
        law_gf_mul_unit(s[j]);
        lemma_xor_facts(s[j], 0, 0, 0);
    }
}

/// Decodes one received block in place: a word with zero syndromes is left
/// as it is; otherwise the errors are located and corrected, and the result
/// is accepted only when its syndromes are zero. A block within reach of a
/// codeword (at most half as many damaged bytes as syndromes) is always
/// given back as that codeword, and a block is refused exactly when no
/// codeword is within its reach.
pub fn decode_block(gf: &Gf256, codeword: &mut Vec<u8>, nsym: usize) -> (r: BlockStatus)
    requires
        gf.wf(),
        1 <= old(codeword)@.len() <= 255,
        1 <= nsym <= 255,
    ensures
        final(codeword)@.len() == old(codeword)@.len(),
        (r == BlockStatus::NoErrors) == clean(old(codeword)@, nsym as nat),
        r == BlockStatus::NoErrors ==> final(codeword)@ == old(codeword)@,
        r == BlockStatus::Corrected ==> clean(final(codeword)@, nsym as nat),
        r == BlockStatus::Corrected ==> exists|fixed: Seq<int>| #![trigger fixed.len()]
            2 * fixed.len() <= nsym && positions_in(fixed, old(codeword)@.len()) && differs_only_at(
                old(codeword)@,
                final(codeword)@,
                fixed,
            ),
        forall|sent: Seq<u8>, damaged: Seq<int>|
            #[trigger] block_within_reach(sent, old(codeword)@, damaged, nsym as nat) ==> r != BlockStatus::Uncorrectable
                && final(codeword)@ == sent,
        (r == BlockStatus::Uncorrectable) == !reachable(old(codeword)@, nsym as nat),
{
    let ghost received = codeword@;
    let ghost n0 = codeword@.len();
    let ghost hyp = exists|sent: Seq<u8>, damaged: Seq<int>| block_within_reach(sent, received, damaged, nsym as nat);
    let ghost w = choose|w: (Seq<u8>, Seq<int>)| block_within_reach(w.0, received, w.1, nsym as nat);
    let ghost sent0 = w.0;
    let ghost dam0 = w.1;
    proof {
        if hyp {
            let (a, b) = choose|a: Seq<u8>, b: Seq<int>| block_within_reach(a, received, b, nsym as nat);
            assert(block_within_reach(a, received, b, nsym as nat));
            assert(block_within_reach(sent0, received, dam0, nsym as nat));
        }
    }
    let syndromes = syndromes_of(gf, codeword.as_slice(), nsym);
    if all_zero(syndromes.as_slice()) {
        proof {
            assert forall|i: int| 0 <= i < nsym implies #[trigger] syndrome(codeword@, i) == 0 by {
                assert(syndromes@[i] == 0);
            }
            assert forall|sent: Seq<u8>, damaged: Seq<int>| #[trigger]
                block_within_reach(sent, received, damaged, nsym as nat) implies received == sent by {
                lemma_close_codewords_equal(sent, received, damaged, nsym as nat);
            }
            let none = Seq::<int>::empty();
            assert(block_within_reach(received, received, none, nsym as nat));
        }
        return BlockStatus::NoErrors;
    }
    proof {
        let i = choose|i: int| 0 <= i < nsym && syndromes@[i] != 0;
        assert(syndrome(codeword@, i) != 0);
    }
    let (lambda, errors_count) = berlekamp_massey(gf, syndromes.as_slice());
    proof {
        if hyp {
            law_chien_lists_exactly(sent0, received, dam0, syndromes@, lambda@, errors_count as nat);
            if errors_count == 0 {
                lemma_length_zero_clean(lambda@, syndromes@);
                let i = choose|i: int| 0 <= i < nsym && syndromes@[i] != 0;
                assert(syndromes@[i] == 0);
            }
        }
    }
    if errors_count == 0 || 2 * errors_count > nsym {
        return BlockStatus::Uncorrectable;
    }
    let n = codeword.len();
    let errors = find_errors(gf, lambda.as_slice(), n);
    if errors.len() != errors_count {
        return BlockStatus::Uncorrectable;
    }
    let product = poly_mul(gf, syndromes.as_slice(), lambda.as_slice());
    let mut omega: Vec<u8> = Vec::new();
    let mut t: usize = 0;
    while t < nsym
        invariant
            t <= nsym,
            product@.len() == nsym + lambda@.len() - 1,
            lambda@.len() >= 1,
            omega@ == product@.take(t as int),
        decreases nsym - t,
    {
        omega.push(product[t]);
        proof {
            assert(omega@ =~= product@.take(t + 1));
        }
        t += 1;
    }
    let lambda_deriv = poly_formal_derivative(lambda.as_slice());
    proof {
        lemma_error_positions_shape(lambda@, n as nat, n as nat);
        if hyp {
            let roots = Seq::new(errors@.len(), |k: int| errors@[k].1);
            assert forall|a: int, b: int| 0 <= a < b < roots.len() implies roots[a] != roots[b] by {
                assert(errors@[a].0 < errors@[b].0);
                lemma_roots_distinct(n as nat, errors@[a].0 as int, errors@[b].0 as int);
            }
            assert forall|j: int| 0 <= j < roots.len() implies eval_ascending(lambda@, #[trigger] roots[j], lambda@.len()) == 0 by {
                assert(roots[j] == errors@[j].1);
            }
            assert forall|j: int| 0 <= j < roots.len() implies #[trigger] roots[j] != 0 by {
                lemma_root_times_locator(n as nat, errors@[j].0 as int);
                law_gf_mul_unit(locator(n as nat, errors@[j].0 as int));
            }
            assert forall|k: int| 0 <= k < errors@.len() implies {
                let en = #[trigger] errors@[k];
                &&& eval_ascending(lambda_deriv@, en.1, lambda_deriv@.len()) != 0
                &&& gf_mul(en.2, gf_div(eval_ascending(omega@, en.1, omega@.len()), eval_ascending(lambda_deriv@, en.1, lambda_deriv@.len())))
                    == sent0[en.0 as int] ^ received[en.0 as int]
            } by {
                let en = errors@[k];
                assert(roots[k] == en.1);
                lemma_simple_roots(lambda@, roots, k);
                law_forney(sent0, received, dam0, syndromes@, lambda@, errors_count as nat, en.0 as int);
            }
        }
    }
    let mut e: usize = 0;
    while e < errors.len()
        invariant
            gf.wf(),
            e <= errors@.len(),
            codeword@.len() == n,
            n == old(codeword)@.len(),
            received == old(codeword)@,
            hyp == exists|sent: Seq<u8>, damaged: Seq<int>| block_within_reach(sent, received, damaged, nsym as nat),
            !clean(old(codeword)@, nsym as nat),
            forall|j: int| 0 <= j < errors@.len() ==> (#[trigger] errors@[j]).0 < n,
            forall|a: int, b: int| 0 <= a < b < errors@.len() ==> (#[trigger] errors@[a]).0 < (#[trigger] errors@[b]).0,
            forall|t: int| 0 <= t < n && codeword@[t] != old(codeword)@[t] ==> exists|k: int| 0 <= k < e && (#[trigger] errors@[k]).0 == t,
            hyp ==> forall|k: int| 0 <= k < errors@.len() ==> {
                let en = #[trigger] errors@[k];
                &&& eval_ascending(lambda_deriv@, en.1, lambda_deriv@.len()) != 0
                &&& gf_mul(en.2, gf_div(eval_ascending(omega@, en.1, omega@.len()), eval_ascending(lambda_deriv@, en.1, lambda_deriv@.len())))
                    == sent0[en.0 as int] ^ received[en.0 as int]
            },
            hyp ==> forall|k: int| 0 <= k < e ==> codeword@[(#[trigger] errors@[k]).0 as int] == sent0[errors@[k].0 as int],
        decreases errors@.len() - e,
    {
        let (idx, root, x_l) = errors[e];
        let omega_val = poly_eval_ascending(gf, omega.as_slice(), root);
        let deriv_val = poly_eval_ascending(gf, lambda_deriv.as_slice(), root);
        if deriv_val == 0 {
            proof {
                assert forall|sent: Seq<u8>, damaged: Seq<int>| #[trigger]
                    block_within_reach(sent, received, damaged, nsym as nat) implies false by {
                    assert(block_within_reach(sent, received, damaged, nsym as nat));
                    assert(hyp);
                    assert(errors@[e as int] == (idx, root, x_l));
                }
            }
            return BlockStatus::Uncorrectable;
        }
        let magnitude = gf.mul(x_l, gf.div(omega_val, deriv_val));
        let cur = codeword[idx];
        let ghost before = codeword@;
        proof {
            if codeword@[idx as int] != old(codeword)@[idx as int] {
                let k = choose|k: int| 0 <= k < e && (#[trigger] errors@[k]).0 == idx;
                assert(errors@[k].0 < errors@[e as int].0);
            }
        }
        codeword.set(idx, cur ^ magnitude);
        proof {
            assert(errors@[e as int] == (idx, root, x_l));
            if hyp {
                let sp = sent0[idx as int];
                let rp = received[idx as int];
                assert(magnitude == sp ^ rp);
                lemma_xor_facts(rp, rp, sp, 0);
                lemma_xor_facts(sp, 0, 0, 0);
                lemma_xor_facts(rp, sp, 0, 0);
                assert(rp ^ (sp ^ rp) == (rp ^ rp) ^ sp) by {
                    lemma_xor_facts(rp, sp, rp, 0);
                    lemma_xor_facts(sp, rp, 0, 0);
                    lemma_xor_facts(rp, rp, sp, 0);
                    lemma_xor_facts(rp, rp, 0, 0);
                }
                assert(codeword@[idx as int] == sp);
                assert forall|k: int| 0 <= k < e + 1 implies codeword@[(#[trigger] errors@[k]).0 as int] == sent0[errors@[k].0 as int] by {
                    if k < e {
                        assert(errors@[k].0 < errors@[e as int].0);
                        assert(codeword@[errors@[k].0 as int] == before[errors@[k].0 as int]);
                    }
                }
            }
        }
        e += 1;
    }
    proof {
        if hyp {
            assert forall|tt: int| 0 <= tt < n implies codeword@[tt] == sent0[tt] by {
                if received[tt] != sent0[tt] {
                    let j = choose|j: int| 0 <= j < errors@.len() && (#[trigger] errors@[j]).0 == tt;
                    assert(codeword@[errors@[j].0 as int] == sent0[errors@[j].0 as int]);
                } else if codeword@[tt] != received[tt] {
                    let k = choose|k: int| 0 <= k < errors@.len() && (#[trigger] errors@[k]).0 == tt;
                    assert(codeword@[errors@[k].0 as int] == sent0[errors@[k].0 as int]);
                }
            }
            assert(codeword@ =~= sent0);
        }
    }
    let check = syndromes_of(gf, codeword.as_slice(), nsym);
    if all_zero(check.as_slice()) {
        proof {
            let fixed = Seq::new(errors@.len(), |k: int| errors@[k].0 as int);
            assert forall|t: int| 0 <= t < n && old(codeword)@[t] != codeword@[t] implies exists|k: int| 0 <= k < fixed.len() && fixed[k] == t by {
                let k = choose|k: int| 0 <= k < errors@.len() && (#[trigger] errors@[k]).0 == t;
                assert(fixed[k] == t);
            }
            assert forall|k: int| 0 <= k < fixed.len() implies 0 <= #[trigger] fixed[k] < n by {
                assert(errors@[k].0 < n);
            }
            assert(2 * fixed.len() <= nsym);
            assert forall|i: int| 0 <= i < nsym implies #[trigger] syndrome(codeword@, i) == 0 by {
                assert(check@[i] == 0);
            }
            assert forall|sent: Seq<u8>, damaged: Seq<int>| #[trigger]
                block_within_reach(sent, received, damaged, nsym as nat) implies codeword@ == sent by {
                lemma_reach_unique(sent, sent0, received, damaged, dam0, nsym as nat);
            }
            assert forall|t: int| 0 <= t < codeword@.len() && codeword@[t] != received[t] implies exists|k: int|
                0 <= k < fixed.len() && fixed[k] == t by {
                let k = choose|k: int| 0 <= k < errors@.len() && (#[trigger] errors@[k]).0 == t;
                assert(fixed[k] == t);
            }
            assert(block_within_reach(codeword@, received, fixed, nsym as nat));
        }
        BlockStatus::Corrected
    } else {
        proof {
            if hyp {
                assert forall|i: int| 0 <= i < nsym implies #[trigger] check@[i] == 0 by {
                    assert(syndrome(sent0, i) == 0);
                }
            }
        }
        BlockStatus::Uncorrectable
    }
}

} // verus!
