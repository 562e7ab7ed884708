//! Polynomials over GF(256) for the Reed–Solomon code: products,
//! evaluation, the formal derivative, the generator and systematic encoding.
use vstd::prelude::*;
use crate::bits::lemma_byte_facts;
use crate::rs_field::{gf_mul, gf_pow, Gf256};

verus! {

/// Coefficient `k` of the product of `a` and `b` (lowest degree first),
/// summed over the first `n` coefficients of `a`.
pub open spec fn conv_upto(a: Seq<u8>, b: Seq<u8>, k: int, n: nat) -> u8
    decreases n,
{
    if n == 0 {
        0
    } else {
        conv_upto(a, b, k, (n - 1) as nat) ^ (if 0 <= k - (n - 1) < b.len() {
            gf_mul(a[n - 1], b[k - (n - 1)])
        } else {
            0u8
        })
    }
}

/// The product of two polynomials given as coefficient lists.
pub open spec fn poly_product(a: Seq<u8>, b: Seq<u8>) -> Seq<u8> {
    Seq::new((a.len() + b.len() - 1) as nat, |k: int| conv_upto(a, b, k, a.len()))
}

/// `x` to the power `i`, by repeated multiplication.
pub open spec fn gf_power(x: u8, i: nat) -> u8
    decreases i,
{
    if i == 0 {
        1
    } else {
        gf_mul(gf_power(x, (i - 1) as nat), x)
    }
}

/// The first `n` terms of `p` (lowest degree first) at `x`.
pub open spec fn eval_ascending(p: Seq<u8>, x: u8, n: nat) -> u8
    decreases n,
{
    if n == 0 {
        0
    } else {
        eval_ascending(p, x, (n - 1) as nat) ^ gf_mul(p[n - 1], gf_power(x, (n - 1) as nat))
    }
}

/// The first `n` coefficients of `p` (highest degree first) at `x`, by Horner's rule.
pub open spec fn eval_descending(p: Seq<u8>, x: u8, n: nat) -> u8
    decreases n,
{
    if n == 0 {
        0
    } else {
        gf_mul(eval_descending(p, x, (n - 1) as nat), x) ^ p[n - 1]
    }
}

/// The formal derivative (lowest degree first): in characteristic 2 only the
/// odd-degree terms survive.
pub open spec fn derivative(p: Seq<u8>) -> Seq<u8> {
    if p.len() <= 1 {
        seq![0u8]
    } else {
        Seq::new((p.len() - 1) as nat, |t: int| if t % 2 == 0 { p[t + 1] } else { 0u8 })
    }
}

/// The generator polynomial (highest degree first) with roots 2^0 .. 2^(n-1).
pub open spec fn generator(n: nat) -> Seq<u8>
    decreases n,
{
    if n == 0 {
        seq![1u8]
    } else {
        poly_product(generator((n - 1) as nat), seq![1u8, gf_pow(2, (n - 1) as int)])
    }
}

/// One step of the long division by `g`: the coefficient at `i` times `g` is
/// subtracted from the coefficients from `i` on.
pub open spec fn division_step(state: Seq<u8>, g: Seq<u8>, i: int) -> Seq<u8> {
    let c = state[i];
    if c == 0 {
        state
    } else {
        Seq::new(state.len(), |t: int| if i <= t < i + g.len() { state[t] ^ gf_mul(g[t - i], c) } else { state[t] })
    }
}

/// The first `i` steps of dividing `data` followed by `g.len() - 1` zeros by `g`.
pub open spec fn division_upto(data: Seq<u8>, g: Seq<u8>, i: nat) -> Seq<u8>
    decreases i,
{
    if i == 0 {
        data + Seq::new((g.len() - 1) as nat, |_t: int| 0u8)
    } else {
        division_step(division_upto(data, g, (i - 1) as nat), g, i - 1)
    }
}

/// The systematic codeword of `data`: the data, then the remainder of the division.
pub open spec fn rs_codeword(data: Seq<u8>, g: Seq<u8>) -> Seq<u8> {
    data + division_upto(data, g, data.len()).skip(data.len() as int)
}

/// The product of two polynomials (lowest degree first).
pub fn poly_mul(gf: &Gf256, a: &[u8], b: &[u8]) -> (r: Vec<u8>)
    requires
        gf.wf(),
        a@.len() >= 1,
        b@.len() >= 1,
        a@.len() + b@.len() <= usize::MAX,
    ensures
        r@ == poly_product(a@, b@),
{
    let total = a.len() + b.len() - 1;
    let mut result: Vec<u8> = Vec::new();
    let mut z: usize = 0;
    while z < total
        invariant
            z <= total,
            result@.len() == z,
            forall|k: int| 0 <= k < z ==> #[trigger] result@[k] == 0,
        decreases total - z,
    {
        result.push(0);
        z += 1;
    }
    let mut i: usize = 0;
    while i < a.len()
        invariant
            gf.wf(),
            i <= a@.len(),
            total == a@.len() + b@.len() - 1,
            result@.len() == total,
            forall|k: int| 0 <= k < total ==> #[trigger] result@[k] == conv_upto(a@, b@, k, i as nat),
        decreases a@.len() - i,
    {
        let ai = a[i];
        proof {
            assert forall|k: int| 0 <= k < total implies #[trigger] result@[k] == conv_upto(a@, b@, k, i as nat) ^ (if 0 <= k - i < 0 {
                gf_mul(a@[i as int], b@[k - i])
            } else {
                0u8
            }) by {
                lemma_byte_facts(conv_upto(a@, b@, k, i as nat), 0);
            }
        }
        let mut j: usize = 0;
        while j < b.len()
            invariant
                gf.wf(),
                i < a@.len(),
                ai == a@[i as int],
                j <= b@.len(),
                total == a@.len() + b@.len() - 1,
                result@.len() == total,
                forall|k: int| 0 <= k < total ==> #[trigger] result@[k] == conv_upto(a@, b@, k, i as nat) ^ (if 0 <= k - i < j {
                    gf_mul(a@[i as int], b@[k - i])
                } else {
                    0u8
                }),
            decreases b@.len() - j,
        {
            let bj = b[j];
            if ai != 0 && bj != 0 {
                let cur = result[i + j];
                let prod = gf.mul(ai, bj);
                result.set(i + j, cur ^ prod);
                proof {
                    assert forall|k: int| 0 <= k < total implies #[trigger] result@[k] == conv_upto(a@, b@, k, i as nat) ^ (if 0 <= k - i < j + 1 {
                        gf_mul(a@[i as int], b@[k - i])
                    } else {
                        0u8
                    }) by {
                        lemma_byte_facts(conv_upto(a@, b@, k, i as nat), 0);
                        if k == i + j {
                            lemma_byte_facts(cur, prod);
                        }
                    }
                }
            } else {
                proof {
                    assert forall|k: int| 0 <= k < total implies #[trigger] result@[k] == conv_upto(a@, b@, k, i as nat) ^ (if 0 <= k - i < j + 1 {
                        gf_mul(a@[i as int], b@[k - i])
                    } else {
                        0u8
                    }) by {
                        lemma_byte_facts(conv_upto(a@, b@, k, i as nat), 0);
                    }
                }
            }
            j += 1;
        }
        proof {
            assert forall|k: int| 0 <= k < total implies #[trigger] result@[k] == conv_upto(a@, b@, k, (i + 1) as nat) by {}
        }
        i += 1;
    }
    proof {
        assert(result@ =~= poly_product(a@, b@));
    }
    result
}

/// The value of `poly` (lowest degree first) at `x`.
pub fn poly_eval_ascending(gf: &Gf256, poly: &[u8], x: u8) -> (r: u8)
    requires
        gf.wf(),
    ensures
        r == eval_ascending(poly@, x, poly@.len()),
{
    let mut y: u8 = 0;
    let mut x_pow: u8 = 1;
    let mut i: usize = 0;
    while i < poly.len()
        invariant
            gf.wf(),
            i <= poly@.len(),
            y == eval_ascending(poly@, x, i as nat),
            x_pow == gf_power(x, i as nat),
        decreases poly@.len() - i,
    {
        y = y ^ gf.mul(poly[i], x_pow);
        x_pow = gf.mul(x_pow, x);
        i += 1;
    }
    y
}

/// The value of `poly` (highest degree first) at `x`, by Horner's rule.
pub fn poly_eval_descending(gf: &Gf256, poly: &[u8], x: u8) -> (r: u8)
    requires
        gf.wf(),
        poly@.len() >= 1,
    ensures
        r == eval_descending(poly@, x, poly@.len()),
{
    let mut y = poly[0];
    proof {
        lemma_byte_facts(poly@[0], 0);
        assert(gf_mul(0, x) == 0);
        assert(eval_descending(poly@, x, 1) == gf_mul(eval_descending(poly@, x, 0), x) ^ poly@[0]);
    }
    let mut i: usize = 1;
    while i < poly.len()
        invariant
            gf.wf(),
            1 <= i <= poly@.len(),
            y == eval_descending(poly@, x, i as nat),
        decreases poly@.len() - i,
    {
        y = gf.mul(y, x) ^ poly[i];
        i += 1;
    }
    y
}

/// The formal derivative (lowest degree first).
pub fn poly_formal_derivative(poly: &[u8]) -> (r: Vec<u8>)
    ensures
        r@ == derivative(poly@),
{
    if poly.len() <= 1 {
        let mut r: Vec<u8> = Vec::new();
        r.push(0);
        proof {
            assert(r@ =~= seq![0u8]);
        }
        return r;
    }
    let n = poly.len() - 1;
    let mut result: Vec<u8> = Vec::new();
    let mut t: usize = 0;
    while t < n
        invariant
            t <= n,
            n == poly@.len() - 1,
            result@.len() == t,
            forall|u: int| 0 <= u < t ==> #[trigger] result@[u] == if u % 2 == 0 { poly@[u + 1] } else { 0u8 },
        decreases n - t,
    {
        if t % 2 == 0 {
            result.push(poly[t + 1]);
        } else {
            result.push(0);
        }
        t += 1;
    }
    proof {
        assert(result@ =~= derivative(poly@));
    }
    result
}

/// The product with the highest degree first: the same convolution.
pub fn poly_mul_descending(gf: &Gf256, a: &[u8], b: &[u8]) -> (r: Vec<u8>)
    requires
        gf.wf(),
        a@.len() >= 1,
        b@.len() >= 1,
        a@.len() + b@.len() <= usize::MAX,
    ensures
        r@ == poly_product(a@, b@),
{
    poly_mul(gf, a, b)
}

/// The generator polynomial with `nsym` roots.
pub fn build_genzerator(gf: &Gf256, nsym: usize) -> (r: Vec<u8>)
    requires
        gf.wf(),
        nsym <= 255,
    ensures
        r@ == generator(nsym as nat),
        r@.len() == nsym + 1,
{
    let mut g: Vec<u8> = Vec::new();
    g.push(1);
    proof {
        assert(g@ =~= seq![1u8]);
    }
    let mut i: usize = 0;
    while i < nsym
        invariant
            gf.wf(),
            i <= nsym <= 255,
            g@ == generator(i as nat),
            g@.len() == i + 1,
        decreases nsym - i,
    {
        let root = gf.pow(2, i as i32);
        let mut factor: Vec<u8> = Vec::new();
        factor.push(1);
        factor.push(root);
        proof {
            assert(factor@ =~= seq![1u8, gf_pow(2, i as int)]);
        }
        g = poly_mul_descending(gf, g.as_slice(), factor.as_slice());
        i += 1;
    }
    g
}

/// Encodes one block: the data, then `genz.len() - 1` parity bytes, the
/// remainder of the division by the generator.
pub fn rs_encode_block(gf: &Gf256, data: &[u8], genz: &[u8]) -> (r: Vec<u8>)
    requires
        gf.wf(),
        genz@.len() >= 1,
        data@.len() + genz@.len() <= usize::MAX,
    ensures
        r@ == rs_codeword(data@, genz@),
        r@.len() == data@.len() + genz@.len() - 1,
{
    let nsym = genz.len() - 1;
    let total = data.len() + nsym;
    let mut msg_out: Vec<u8> = Vec::new();
    let mut z: usize = 0;
    while z < total
        invariant
            z <= total,
            total == data@.len() + nsym,
            msg_out@ == (data@ + Seq::new(nsym as nat, |_t: int| 0u8)).take(z as int),
        decreases total - z,
    {
        if z < data.len() {
            msg_out.push(data[z]);
        } else {
            msg_out.push(0);
        }
        proof {
            assert(msg_out@ =~= (data@ + Seq::new(nsym as nat, |_t: int| 0u8)).take(z + 1));
        }
        z += 1;
    }
    proof {
        assert(msg_out@ =~= division_upto(data@, genz@, 0));
    }
    let mut i: usize = 0;
    while i < data.len()
        invariant
            gf.wf(),
            i <= data@.len(),
            nsym == genz@.len() - 1,
            total == data@.len() + nsym,
            msg_out@ == division_upto(data@, genz@, i as nat),
            msg_out@.len() == total,
        decreases data@.len() - i,
    {
        let coef = msg_out[i];
        if coef != 0 {
            let ghost before = msg_out@;
            let mut j: usize = 0;
            while j < genz.len()
                invariant
                    gf.wf(),
                    i < data@.len(),
                    nsym == genz@.len() - 1,
                    total == data@.len() + nsym,
                    j <= genz@.len(),
                    coef == before[i as int],
                    before.len() == total,
                    msg_out@.len() == total,
                    forall|t: int| 0 <= t < total ==> #[trigger] msg_out@[t] == if i <= t < i + j {
                        before[t] ^ gf_mul(genz@[t - i], coef)
                    } else {
                        before[t]
                    },
                decreases genz@.len() - j,
            {
                let cur = msg_out[i + j];
                let prod = gf.mul(genz[j], coef);
                msg_out.set(i + j, cur ^ prod);
                j += 1;
            }
            proof {
                assert(msg_out@ =~= division_step(before, genz@, i as int));
            }
        }
        i += 1;
    }
    let ghost rem = msg_out@;
    let mut k: usize = 0;
    while k < data.len()
        invariant
            k <= data@.len(),
            total == data@.len() + nsym,
            msg_out@.len() == total,
            forall|t: int| 0 <= t < k ==> #[trigger] msg_out@[t] == data@[t],
            forall|t: int| data@.len() <= t < total ==> #[trigger] msg_out@[t] == rem[t],
        decreases data@.len() - k,
    {
        msg_out.set(k, data[k]);
        k += 1;
    }
    proof {
        assert(msg_out@ =~= rs_codeword(data@, genz@));
    }
    msg_out
}

} // verus!
