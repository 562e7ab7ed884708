//! Arithmetic in GF(256) with the reduction polynomial x^8 + x^4 + x^3 + x^2 + 1
//! (0x11D), through tables of the powers of 2 and their logarithms.
use vstd::prelude::*;

verus! {

/// Multiplication by 2 in the field.
pub open spec fn xtime(x: u8) -> u8 {
    if x & 0x80u8 == 0 {
        x << 1u8
    } else {
        (x << 1u8) ^ 0x1du8
    }
}

/// 2 to the power `i`.
pub open spec fn alpha_pow(i: nat) -> u8
    decreases i,
{
    if i == 0 {
        1
    } else {
        xtime(alpha_pow((i - 1) as nat))
    }
}

/// The last exponent below `n` whose power of 2 is `v` (0 when there is none).
pub open spec fn log_upto(v: u8, n: nat) -> nat
    decreases n,
{
    if n == 0 {
        0
    } else if alpha_pow((n - 1) as nat) == v {
        (n - 1) as nat
    } else {
        log_upto(v, (n - 1) as nat)
    }
}

/// The logarithm table's entry for `v`.
pub open spec fn log_spec(v: u8) -> nat {
    log_upto(v, 255)
}

/// The power of 2 for an exponent below 510, reduced by the group order 255.
pub open spec fn alpha_wrap(e: nat) -> u8 {
    if e >= 255 {
        alpha_pow((e - 255) as nat)
    } else {
        alpha_pow(e)
    }
}

/// Field product, as the tables compute it.
pub open spec fn gf_mul(a: u8, b: u8) -> u8 {
    if a == 0 || b == 0 {
        0
    } else {
        alpha_wrap(log_spec(a) + log_spec(b))
    }
}

/// Field quotient, as the tables compute it.
pub open spec fn gf_div(a: u8, b: u8) -> u8 {
    if a == 0 {
        0
    } else if log_spec(a) >= log_spec(b) {
        alpha_pow((log_spec(a) - log_spec(b)) as nat)
    } else {
        alpha_pow((log_spec(a) + 255 - log_spec(b)) as nat)
    }
}

/// The exponent of `a^n` as the tables compute it: `log(a) * n` reduced to
/// `0..255` (a negative `n` counts down).
pub open spec fn pow_exponent(l: nat, n: int) -> nat {
    if n >= 0 {
        ((l * n) % 255) as nat
    } else {
        ((255 - (l * (-n)) % 255) % 255) as nat
    }
}

/// `a` to the power `n` (0 to any power but 0 is 0; anything to the power 0 is 1).
pub open spec fn gf_pow(a: u8, n: int) -> u8 {
    if a == 0 {
        if n == 0 {
            1
        } else {
            0
        }
    } else {
        alpha_pow(pow_exponent(log_spec(a), n))
    }
}

proof fn bv_xtime(x: u16)
    by (bit_vector)
    requires
        x < 256,
    ensures
        ({
            let y = (x << 1u16) as u16;
            let z = if y & 0x100u16 != 0 { y ^ 0x11du16 } else { y };
            z < 256 && z as u8 == (if (x as u8) & 0x80u8 == 0 { (x as u8) << 1u8 } else { ((x as u8) << 1u8) ^ 0x1du8 })
        }),
{
}

proof fn lemma_log_upto_bound(v: u8, n: nat)
    ensures
        n > 0 ==> log_upto(v, n) < n,
        n == 0 ==> log_upto(v, n) == 0,
    decreases n,
{
    if n > 0 {
        lemma_log_upto_bound(v, (n - 1) as nat);
    }
}

/// The tables of the powers of 2 and of their logarithms.
pub struct Gf256 {
    exp: Vec<u8>,
    log: Vec<u8>,
}

impl Gf256 {
    pub closed spec fn wf(&self) -> bool {
        &&& self.exp@.len() == 512
        &&& self.log@.len() == 256
        &&& forall|e: int| 0 <= e < 510 ==> #[trigger] self.exp@[e] == alpha_wrap(e as nat)
        &&& forall|v: u8| #[trigger] self.log@[v as int] == log_spec(v)
    }

    /// Builds the tables.
    pub fn new() -> (r: Gf256)
        ensures
            r.wf(),
    {
        let mut exp: Vec<u8> = Vec::new();
        let mut z: usize = 0;
        while z < 512
            invariant
                z <= 512,
                exp@.len() == z,
            decreases 512 - z,
        {
            exp.push(0);
            z += 1;
        }
        let mut log: Vec<u8> = Vec::new();
        let mut w: usize = 0;
        while w < 256
            invariant
                w <= 256,
                log@.len() == w,
                forall|j: int| 0 <= j < w ==> #[trigger] log@[j] == 0,
            decreases 256 - w,
        {
            log.push(0);
            w += 1;
        }
        let mut x: u16 = 1;
        let mut i: usize = 0;
        while i < 255
            invariant
                i <= 255,
                exp@.len() == 512,
                log@.len() == 256,
                x < 256,
                x as u8 == alpha_pow(i as nat),
                forall|e: int| 0 <= e < i ==> #[trigger] exp@[e] == alpha_pow(e as nat),
                forall|v: u8| #[trigger] log@[v as int] == log_upto(v, i as nat),
            decreases 255 - i,
        {
            exp.set(i, x as u8);
            log.set(x as usize, i as u8);
            proof {
                bv_xtime(x);
                assert forall|v: u8| #[trigger] log@[v as int] == log_upto(v, (i + 1) as nat) by {
                    if v == x as u8 {
                        assert(v as int == x as int);
                    }
                }
            }
            x = x << 1;
            if x & 0x100 != 0 {
                x ^= 0x11D;
            }
            i += 1;
        }
        let mut j: usize = 255;
        while j < 512
            invariant
                255 <= j <= 512,
                exp@.len() == 512,
                forall|e: int| 0 <= e < 255 ==> #[trigger] exp@[e] == alpha_pow(e as nat),
                forall|e: int| 255 <= e < j ==> #[trigger] exp@[e] == exp@[e - 255],
            decreases 512 - j,
        {
            let v = exp[j - 255];
            exp.set(j, v);
            j += 1;
        }
        let r = Gf256 { exp, log };
        proof {
            assert forall|e: int| 0 <= e < 510 implies #[trigger] r.exp@[e] == alpha_wrap(e as nat) by {
                if e >= 255 {
                    assert(r.exp@[e] == r.exp@[e - 255]);
                }
            }
            assert forall|v: u8| #[trigger] r.log@[v as int] == log_spec(v) by {}
        }
        r
    }

    /// Field product.
    pub fn mul(&self, a: u8, b: u8) -> (r: u8)
        requires
            self.wf(),
        ensures
            r == gf_mul(a, b),
    {
        if a == 0 || b == 0 {
            0
        } else {
            proof {
                lemma_log_upto_bound(a, 255);
                lemma_log_upto_bound(b, 255);
            }
            let la = self.log[a as usize] as usize;
            let lb = self.log[b as usize] as usize;
            self.exp[la + lb]
        }
    }

    /// Field quotient; `b` must not be 0.
    pub fn div(&self, a: u8, b: u8) -> (r: u8)
        requires
            self.wf(),
            b != 0,
        ensures
            r == gf_div(a, b),
    {
        if a == 0 {
            0
        } else {
            proof {
                lemma_log_upto_bound(a, 255);
                lemma_log_upto_bound(b, 255);
            }
            let la = self.log[a as usize] as usize;
            let lb = self.log[b as usize] as usize;
            if la >= lb {
                self.exp[la - lb]
            } else {
                self.exp[la + 255 - lb]
            }
        }
    }

    /// `a` to the power `n`; a negative `n` gives the inverse's power.
    pub fn pow(&self, a: u8, n: i32) -> (r: u8)
        requires
            self.wf(),
        ensures
            r == gf_pow(a, n as int),
    {
        if a == 0 {
            return if n == 0 { 1 } else { 0 };
        }
        proof {
            lemma_log_upto_bound(a, 255);
        }
        let l = self.log[a as usize] as u64;
        let e: u64 = if n >= 0 {
            proof {
                assert(l * (n as u64) <= 254 * 0x7fff_ffff) by (nonlinear_arith)
                    requires
                        l < 255,
                        0 <= n <= 0x7fff_ffff,
                ;
            }
            (l * (n as u64)) % 255
        } else {
            let m: u64 = (0 - (n as i64)) as u64;
            proof {
                assert(l * m <= 254 * 0x8000_0000) by (nonlinear_arith)
                    requires
                        l < 255,
                        m <= 0x8000_0000,
                ;
            }
            (255 - (l * m) % 255) % 255
        };
        self.exp[e as usize]
    }
}

} // verus!
