//! The field laws of GF(256) as the tables compute it: the tables list every
//! non-zero element as a power of 2, and the table product is the product of
//! polynomials over GF(2) reduced by 0x11D, so it is commutative,
//! associative and distributes over xor.
use vstd::prelude::*;
use crate::rs_field::{alpha_pow, alpha_wrap, gf_div, gf_mul, log_spec, log_upto, xtime};

verus! {

/// The powers of 2 in the field, listed: `alpha_table(i)` is 2 to the power `i` for `i < 255`.
pub open spec fn alpha_table(i: u8) -> u8 {
    match i {
        0 => 1, 1 => 2, 2 => 4, 3 => 8, 4 => 16, 5 => 32, 6 => 64, 7 => 128,
        8 => 29, 9 => 58, 10 => 116, 11 => 232, 12 => 205, 13 => 135, 14 => 19, 15 => 38,
        16 => 76, 17 => 152, 18 => 45, 19 => 90, 20 => 180, 21 => 117, 22 => 234, 23 => 201,
        24 => 143, 25 => 3, 26 => 6, 27 => 12, 28 => 24, 29 => 48, 30 => 96, 31 => 192,
        32 => 157, 33 => 39, 34 => 78, 35 => 156, 36 => 37, 37 => 74, 38 => 148, 39 => 53,
        40 => 106, 41 => 212, 42 => 181, 43 => 119, 44 => 238, 45 => 193, 46 => 159, 47 => 35,
        48 => 70, 49 => 140, 50 => 5, 51 => 10, 52 => 20, 53 => 40, 54 => 80, 55 => 160,
        56 => 93, 57 => 186, 58 => 105, 59 => 210, 60 => 185, 61 => 111, 62 => 222, 63 => 161,
        64 => 95, 65 => 190, 66 => 97, 67 => 194, 68 => 153, 69 => 47, 70 => 94, 71 => 188,
        72 => 101, 73 => 202, 74 => 137, 75 => 15, 76 => 30, 77 => 60, 78 => 120, 79 => 240,
        80 => 253, 81 => 231, 82 => 211, 83 => 187, 84 => 107, 85 => 214, 86 => 177, 87 => 127,
        88 => 254, 89 => 225, 90 => 223, 91 => 163, 92 => 91, 93 => 182, 94 => 113, 95 => 226,
        96 => 217, 97 => 175, 98 => 67, 99 => 134, 100 => 17, 101 => 34, 102 => 68, 103 => 136,
        104 => 13, 105 => 26, 106 => 52, 107 => 104, 108 => 208, 109 => 189, 110 => 103, 111 => 206,
        112 => 129, 113 => 31, 114 => 62, 115 => 124, 116 => 248, 117 => 237, 118 => 199, 119 => 147,
        120 => 59, 121 => 118, 122 => 236, 123 => 197, 124 => 151, 125 => 51, 126 => 102, 127 => 204,
        128 => 133, 129 => 23, 130 => 46, 131 => 92, 132 => 184, 133 => 109, 134 => 218, 135 => 169,
        136 => 79, 137 => 158, 138 => 33, 139 => 66, 140 => 132, 141 => 21, 142 => 42, 143 => 84,
        144 => 168, 145 => 77, 146 => 154, 147 => 41, 148 => 82, 149 => 164, 150 => 85, 151 => 170,
        152 => 73, 153 => 146, 154 => 57, 155 => 114, 156 => 228, 157 => 213, 158 => 183, 159 => 115,
        160 => 230, 161 => 209, 162 => 191, 163 => 99, 164 => 198, 165 => 145, 166 => 63, 167 => 126,
        168 => 252, 169 => 229, 170 => 215, 171 => 179, 172 => 123, 173 => 246, 174 => 241, 175 => 255,
        176 => 227, 177 => 219, 178 => 171, 179 => 75, 180 => 150, 181 => 49, 182 => 98, 183 => 196,
        184 => 149, 185 => 55, 186 => 110, 187 => 220, 188 => 165, 189 => 87, 190 => 174, 191 => 65,
        192 => 130, 193 => 25, 194 => 50, 195 => 100, 196 => 200, 197 => 141, 198 => 7, 199 => 14,
        200 => 28, 201 => 56, 202 => 112, 203 => 224, 204 => 221, 205 => 167, 206 => 83, 207 => 166,
        208 => 81, 209 => 162, 210 => 89, 211 => 178, 212 => 121, 213 => 242, 214 => 249, 215 => 239,
        216 => 195, 217 => 155, 218 => 43, 219 => 86, 220 => 172, 221 => 69, 222 => 138, 223 => 9,
        224 => 18, 225 => 36, 226 => 72, 227 => 144, 228 => 61, 229 => 122, 230 => 244, 231 => 245,
        232 => 247, 233 => 243, 234 => 251, 235 => 235, 236 => 203, 237 => 139, 238 => 11, 239 => 22,
        240 => 44, 241 => 88, 242 => 176, 243 => 125, 244 => 250, 245 => 233, 246 => 207, 247 => 131,
        248 => 27, 249 => 54, 250 => 108, 251 => 216, 252 => 173, 253 => 71, 254 => 142,
        _ => 1,
    }
}

/// The logarithms to base 2, listed: `log_table(v)` is the exponent `i < 255` with `alpha_table(i) == v`, for `v != 0`.
pub open spec fn log_table(v: u8) -> u8 {
    match v {
        1 => 0, 2 => 1, 3 => 25, 4 => 2, 5 => 50, 6 => 26, 7 => 198, 8 => 3,
        9 => 223, 10 => 51, 11 => 238, 12 => 27, 13 => 104, 14 => 199, 15 => 75, 16 => 4,
        17 => 100, 18 => 224, 19 => 14, 20 => 52, 21 => 141, 22 => 239, 23 => 129, 24 => 28,
        25 => 193, 26 => 105, 27 => 248, 28 => 200, 29 => 8, 30 => 76, 31 => 113, 32 => 5,
        33 => 138, 34 => 101, 35 => 47, 36 => 225, 37 => 36, 38 => 15, 39 => 33, 40 => 53,
        41 => 147, 42 => 142, 43 => 218, 44 => 240, 45 => 18, 46 => 130, 47 => 69, 48 => 29,
        49 => 181, 50 => 194, 51 => 125, 52 => 106, 53 => 39, 54 => 249, 55 => 185, 56 => 201,
        57 => 154, 58 => 9, 59 => 120, 60 => 77, 61 => 228, 62 => 114, 63 => 166, 64 => 6,
        65 => 191, 66 => 139, 67 => 98, 68 => 102, 69 => 221, 70 => 48, 71 => 253, 72 => 226,
        73 => 152, 74 => 37, 75 => 179, 76 => 16, 77 => 145, 78 => 34, 79 => 136, 80 => 54,
        81 => 208, 82 => 148, 83 => 206, 84 => 143, 85 => 150, 86 => 219, 87 => 189, 88 => 241,
        89 => 210, 90 => 19, 91 => 92, 92 => 131, 93 => 56, 94 => 70, 95 => 64, 96 => 30,
        97 => 66, 98 => 182, 99 => 163, 100 => 195, 101 => 72, 102 => 126, 103 => 110, 104 => 107,
        105 => 58, 106 => 40, 107 => 84, 108 => 250, 109 => 133, 110 => 186, 111 => 61, 112 => 202,
        113 => 94, 114 => 155, 115 => 159, 116 => 10, 117 => 21, 118 => 121, 119 => 43, 120 => 78,
        121 => 212, 122 => 229, 123 => 172, 124 => 115, 125 => 243, 126 => 167, 127 => 87, 128 => 7,
        129 => 112, 130 => 192, 131 => 247, 132 => 140, 133 => 128, 134 => 99, 135 => 13, 136 => 103,
        137 => 74, 138 => 222, 139 => 237, 140 => 49, 141 => 197, 142 => 254, 143 => 24, 144 => 227,
        145 => 165, 146 => 153, 147 => 119, 148 => 38, 149 => 184, 150 => 180, 151 => 124, 152 => 17,
        153 => 68, 154 => 146, 155 => 217, 156 => 35, 157 => 32, 158 => 137, 159 => 46, 160 => 55,
        161 => 63, 162 => 209, 163 => 91, 164 => 149, 165 => 188, 166 => 207, 167 => 205, 168 => 144,
        169 => 135, 170 => 151, 171 => 178, 172 => 220, 173 => 252, 174 => 190, 175 => 97, 176 => 242,
        177 => 86, 178 => 211, 179 => 171, 180 => 20, 181 => 42, 182 => 93, 183 => 158, 184 => 132,
        185 => 60, 186 => 57, 187 => 83, 188 => 71, 189 => 109, 190 => 65, 191 => 162, 192 => 31,
        193 => 45, 194 => 67, 195 => 216, 196 => 183, 197 => 123, 198 => 164, 199 => 118, 200 => 196,
        201 => 23, 202 => 73, 203 => 236, 204 => 127, 205 => 12, 206 => 111, 207 => 246, 208 => 108,
        209 => 161, 210 => 59, 211 => 82, 212 => 41, 213 => 157, 214 => 85, 215 => 170, 216 => 251,
        217 => 96, 218 => 134, 219 => 177, 220 => 187, 221 => 204, 222 => 62, 223 => 90, 224 => 203,
        225 => 89, 226 => 95, 227 => 176, 228 => 156, 229 => 169, 230 => 160, 231 => 81, 232 => 11,
        233 => 245, 234 => 22, 235 => 235, 236 => 122, 237 => 117, 238 => 44, 239 => 215, 240 => 79,
        241 => 174, 242 => 213, 243 => 233, 244 => 230, 245 => 231, 246 => 173, 247 => 232, 248 => 116,
        249 => 214, 250 => 244, 251 => 234, 252 => 168, 253 => 80, 254 => 88, 255 => 175,
        _ => 0,
    }
}

/// `x` when `b` has the bit `bit` set, else 0.
pub open spec fn if_bit(b: u8, bit: u8, x: u8) -> u8 {
    if b & bit != 0 {
        x
    } else {
        0u8
    }
}

/// The product of polynomials over GF(2) reduced by 0x11D, shift by shift:
/// `a` times each set bit of `b`.
pub open spec fn clmul(a: u8, b: u8) -> u8 {
    let a1 = xtime(a);
    let a2 = xtime(a1);
    let a3 = xtime(a2);
    let a4 = xtime(a3);
    let a5 = xtime(a4);
    let a6 = xtime(a5);
    let a7 = xtime(a6);
    if_bit(b, 1, a) ^ if_bit(b, 2, a1) ^ if_bit(b, 4, a2) ^ if_bit(b, 8, a3) ^ if_bit(b, 16, a4) ^ if_bit(b, 32, a5)
        ^ if_bit(b, 64, a6) ^ if_bit(b, 128, a7)
}

/// What the lists and the shift-by-shift product satisfy, proved bit by bit.
#[verifier::rlimit(100)]
proof fn field_facts()
    by (bit_vector)
    ensures
        alpha_table(0) == 1u8,
        forall|i: u8| i < 254 ==> #[trigger] xtime(alpha_table(i)) == alpha_table((i + 1) as u8),
        xtime(alpha_table(254)) == 1u8,
        forall|i: u8| i < 255 ==> #[trigger] alpha_table(i) != 0u8,
        forall|i: u8| i < 255 ==> #[trigger] log_table(alpha_table(i)) == i,
        forall|v: u8| v != 0 ==> #[trigger] log_table(v) < 255u8 && alpha_table(log_table(v)) == v,
        forall|a: u8, b: u8, c: u8| #[trigger] clmul(a, b ^ c) == clmul(a, b) ^ clmul(a, c),
        forall|a: u8, b: u8| #[trigger] clmul(a, xtime(b)) == xtime(clmul(a, b)),
        forall|a: u8| #[trigger] clmul(a, 1u8) == a,
        forall|a: u8| #[trigger] clmul(a, 0u8) == 0u8,
        forall|b: u8| #[trigger] clmul(0u8, b) == 0u8,
{
}

/// Xor, the sum of the field, is associative and commutative, with 0 as unit
/// and every element its own negative.
pub proof fn lemma_xor_facts(a: u8, b: u8, c: u8, d: u8)
    by (bit_vector)
    ensures
        (a ^ b) ^ (c ^ d) == (a ^ c) ^ (b ^ d),
        a ^ b == b ^ a,
        (a ^ b) ^ c == a ^ (b ^ c),
        a ^ 0u8 == a,
        0u8 ^ a == a,
        a ^ a == 0u8,
{
}

/// The powers of 2 below 255 are the listed ones.
proof fn lemma_alpha_pow_table(i: nat)
    requires
        i < 255,
    ensures
        alpha_pow(i) == alpha_table(i as u8),
    decreases i,
{
    field_facts();
    if i > 0 {
        lemma_alpha_pow_table((i - 1) as nat);
        let j = (i - 1) as u8;
        assert(xtime(alpha_table(j)) == alpha_table((j + 1) as u8));
        assert((j + 1) as u8 == i as u8);
    }
}

/// The powers of 2 repeat with period 255.
proof fn lemma_alpha_period(e: nat)
    ensures
        alpha_pow(e + 255) == alpha_pow(e),
    decreases e,
{
    if e == 0 {
        field_facts();
        lemma_alpha_pow_table(254);
        assert(alpha_pow(255) == xtime(alpha_pow(254)));
    } else {
        lemma_alpha_period((e - 1) as nat);
        assert(alpha_pow(e + 255) == xtime(alpha_pow((e - 1 + 255) as nat)));
    }
}

/// A power of 2 depends on its exponent modulo 255.
pub proof fn lemma_alpha_mod(e: nat)
    ensures
        alpha_pow(e) == alpha_pow(e % 255),
    decreases e,
{
    if e >= 255 {
        lemma_alpha_mod((e - 255) as nat);
        lemma_alpha_period((e - 255) as nat);
        assert(((e - 255) as nat) % 255 == e % 255);
    }
}

/// The powers of 2 are never 0.
pub proof fn lemma_alpha_nonzero(e: nat)
    ensures
        alpha_pow(e) != 0,
{
    field_facts();
    lemma_alpha_mod(e);
    lemma_alpha_pow_table(e % 255);
    assert(((e % 255) as u8) < 255);
}

proof fn lemma_log_upto_table(v: u8, n: nat)
    requires
        v != 0,
        n <= 255,
    ensures
        log_upto(v, n) == (if (log_table(v) as nat) < n { log_table(v) as nat } else { 0 }),
    decreases n,
{
    field_facts();
    if n > 0 {
        lemma_log_upto_table(v, (n - 1) as nat);
        lemma_alpha_pow_table((n - 1) as nat);
        let k = (n - 1) as u8;
        if alpha_table(k) == v {
            assert(log_table(alpha_table(k)) == k);
        } else {
            assert(alpha_table(log_table(v)) == v);
        }
    }
}

proof fn lemma_log_upto_zero(n: nat)
    requires
        n <= 255,
    ensures
        log_upto(0u8, n) == 0,
    decreases n,
{
    if n > 0 {
        lemma_log_upto_zero((n - 1) as nat);
        lemma_alpha_nonzero((n - 1) as nat);
    }
}

/// The logarithm table: every non-zero element is 2 to the power of its logarithm.
pub proof fn lemma_log_spec(v: u8)
    ensures
        v == 0 ==> log_spec(v) == 0,
        v != 0 ==> log_spec(v) < 255 && alpha_pow(log_spec(v)) == v,
{
    field_facts();
    if v == 0 {
        lemma_log_upto_zero(255);
    } else {
        lemma_log_upto_table(v, 255);
        lemma_alpha_pow_table(log_table(v) as nat);
    }
}

/// The logarithm of a power of 2 below 255 is its exponent.
pub proof fn lemma_log_of_power(e: nat)
    requires
        e < 255,
    ensures
        log_spec(alpha_pow(e)) == e,
{
    field_facts();
    lemma_alpha_pow_table(e);
    let k = e as u8;
    assert(log_table(alpha_table(k)) == k);
    lemma_log_upto_table(alpha_table(k), 255);
}

/// The product of non-zero elements adds their logarithms modulo 255.
pub proof fn lemma_mul_exponent(a: u8, b: u8)
    requires
        a != 0,
        b != 0,
    ensures
        gf_mul(a, b) == alpha_pow((log_spec(a) + log_spec(b)) % 255),
        gf_mul(a, b) != 0,
{
    lemma_log_spec(a);
    lemma_log_spec(b);
    lemma_alpha_mod(log_spec(a) + log_spec(b));
    lemma_alpha_nonzero(log_spec(a) + log_spec(b));
}

proof fn lemma_clmul_powers(i: nat, j: nat)
    ensures
        clmul(alpha_pow(i), alpha_pow(j)) == alpha_pow(i + j),
    decreases j,
{
    field_facts();
    if j > 0 {
        lemma_clmul_powers(i, (j - 1) as nat);
        assert(alpha_pow(j) == xtime(alpha_pow((j - 1) as nat)));
        assert(alpha_pow(i + j) == xtime(alpha_pow((i + j - 1) as nat)));
    }
}

/// The table product is the product of polynomials reduced by 0x11D.
pub proof fn lemma_gf_mul_is_clmul(a: u8, b: u8)
    ensures
        gf_mul(a, b) == clmul(a, b),
{
    field_facts();
    if a != 0 && b != 0 {
        lemma_log_spec(a);
        lemma_log_spec(b);
        lemma_mul_exponent(a, b);
        lemma_clmul_powers(log_spec(a), log_spec(b));
        lemma_alpha_mod(log_spec(a) + log_spec(b));
    }
}

/// The product is commutative.
pub proof fn law_gf_mul_commutative(a: u8, b: u8)
    ensures
        gf_mul(a, b) == gf_mul(b, a),
{
}

/// 1 is the unit of the product and 0 absorbs it.
pub proof fn law_gf_mul_unit(a: u8)
    ensures
        gf_mul(a, 1) == a,
        gf_mul(1, a) == a,
        gf_mul(a, 0) == 0,
        gf_mul(0, a) == 0,
{
    field_facts();
    lemma_gf_mul_is_clmul(a, 1);
    law_gf_mul_commutative(a, 1);
}

/// The product distributes over xor, the sum of the field.
pub proof fn law_gf_mul_distributive(a: u8, b: u8, c: u8)
    ensures
        gf_mul(a, b ^ c) == gf_mul(a, b) ^ gf_mul(a, c),
{
    field_facts();
    lemma_gf_mul_is_clmul(a, b ^ c);
    lemma_gf_mul_is_clmul(a, b);
    lemma_gf_mul_is_clmul(a, c);
}

/// The product is associative.
pub proof fn law_gf_mul_associative(a: u8, b: u8, c: u8)
    ensures
        gf_mul(gf_mul(a, b), c) == gf_mul(a, gf_mul(b, c)),
{
    if a != 0 && b != 0 && c != 0 {
        lemma_log_spec(a);
        lemma_log_spec(b);
        lemma_log_spec(c);
        let la = log_spec(a);
        let lb = log_spec(b);
        let lc = log_spec(c);
        let e1 = (la + lb) % 255;
        let e2 = (lb + lc) % 255;
        lemma_mul_exponent(a, b);
        lemma_mul_exponent(b, c);
        lemma_log_of_power(e1);
        lemma_log_of_power(e2);
        lemma_mul_exponent(gf_mul(a, b), c);
        lemma_mul_exponent(a, gf_mul(b, c));
        assert((e1 + lc) % 255 == (la + e2) % 255) by (nonlinear_arith)
            requires
                la < 255,
                lb < 255,
                lc < 255,
                e1 == (la + lb) % 255,
                e2 == (lb + lc) % 255,
        ;
    } else {
        if a != 0 && b != 0 {
            lemma_mul_exponent(a, b);
        }
        if b != 0 && c != 0 {
            lemma_mul_exponent(b, c);
        }
    }
}

/// Dividing by a non-zero element and multiplying back gives the dividend.
pub proof fn law_gf_div_mul(a: u8, b: u8)
    requires
        b != 0,
    ensures
        gf_mul(gf_div(a, b), b) == a,
{
    if a != 0 {
        lemma_log_spec(a);
        lemma_log_spec(b);
        let la = log_spec(a);
        let lb = log_spec(b);
        let e = if la >= lb { (la - lb) as nat } else { (la + 255 - lb) as nat };
        assert(gf_div(a, b) == alpha_pow(e));
        lemma_alpha_nonzero(e);
        lemma_log_of_power(e);
        lemma_mul_exponent(gf_div(a, b), b);
        assert((e + lb) % 255 == la) by (nonlinear_arith)
            requires
                la < 255,
                lb < 255,
                e == if la >= lb { (la - lb) as nat } else { (la + 255 - lb) as nat },
        ;
    } else {
        law_gf_mul_unit(b);
    }
}

/// Multiplying powers of 2 adds their exponents.
pub proof fn lemma_mul_powers(i: nat, j: nat)
    ensures
        gf_mul(alpha_pow(i), alpha_pow(j)) == alpha_pow(i + j),
{
    lemma_gf_mul_is_clmul(alpha_pow(i), alpha_pow(j));
    lemma_clmul_powers(i, j);
}

/// Different exponents below 255 give different powers of 2.
pub proof fn lemma_powers_distinct(a: nat, b: nat)
    requires
        a < 255,
        b < 255,
        a != b,
    ensures
        alpha_pow(a) != alpha_pow(b),
{
    lemma_log_of_power(a);
    lemma_log_of_power(b);
}

/// The logarithm of 2 is 1.
pub proof fn lemma_log_two()
    ensures
        alpha_pow(1) == 2,
        log_spec(2) == 1,
{
    lemma_alpha_pow_table(1);
    lemma_log_of_power(1);
}

} // verus!
