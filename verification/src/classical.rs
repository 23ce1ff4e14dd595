//! Classical number theory: modular power, greatest common divisor and
//! modular inverse.

use vstd::arithmetic::div_mod::{
    lemma_fundamental_div_mod, lemma_mod_multiples_vanish, lemma_mul_mod_noop_general,
    lemma_small_mod,
};
use vstd::arithmetic::mul::lemma_mul_is_associative;
use vstd::arithmetic::power::{lemma_pow0, lemma_pow_mod_noop, lemma_pow_multiplies, pow};
use vstd::prelude::*;

verus! {

/// Whether `n` is a multiple of `d`.
pub open spec fn divides(d: nat, n: nat) -> bool {
    exists|k: int| n == #[trigger] (k * d)
}

/// Whether `g` is the greatest common divisor of `a` and `b`: it divides
/// both, and every number that divides both divides it.
pub open spec fn is_gcd(g: nat, a: nat, b: nat) -> bool {
    &&& divides(g, a)
    &&& divides(g, b)
    &&& forall|d: nat| divides(d, a) && divides(d, b) ==> #[trigger] divides(d, g)
}

/// Whether 1 is the only common divisor of `a` and `b`.
pub open spec fn coprime(a: nat, b: nat) -> bool {
    forall|d: nat| divides(d, a) && #[trigger] divides(d, b) ==> d == 1
}

/// The absolute value of `x`.
pub open spec fn magnitude(x: i64) -> nat {
    if x < 0 {
        (-x) as nat
    } else {
        x as nat
    }
}

/// The common divisors of `x` and `y` are those of `y` and `x % y`.
pub proof fn lemma_euclid_step(x: nat, y: nat, d: nat)
    requires
        y > 0,
    ensures
        (divides(d, x) && divides(d, y)) <==> (divides(d, y) && divides(d, x % y)),
{
    let q = (x / y) as int;
    let r = (x % y) as int;
    lemma_fundamental_div_mod(x as int, y as int);
    assert(x == y * q + r);
    if divides(d, x) && divides(d, y) {
        let kx = choose|k: int| x == #[trigger] (k * d);
        let ky = choose|k: int| y == #[trigger] (k * d);
        assert(r == (kx - q * ky) * d) by (nonlinear_arith)
            requires
                x == y * q + r,
                x == kx * d,
                y == ky * d,
        ;
    }
    if divides(d, y) && divides(d, x % y) {
        let ky = choose|k: int| y == #[trigger] (k * d);
        let kr = choose|k: int| (x % y) == #[trigger] (k * d);
        assert(x == (q * ky + kr) * d) by (nonlinear_arith)
            requires
                x == y * q + r,
                r == kr * d,
                y == ky * d,
        ;
    }
}

/// Every number divides itself and 0.
proof fn lemma_divides_self_and_zero(g: nat)
    ensures
        divides(g, g),
        divides(g, 0),
{
    assert(g == 1int * g);
    assert(0 == 0int * g);
}

/// Only 1 divides 1.
proof fn lemma_divides_one(d: nat)
    requires
        divides(d, 1),
    ensures
        d == 1,
{
    let k = choose|k: int| 1 == #[trigger] (k * d);
    assert(d == 1) by (nonlinear_arith)
        requires
            1 == k * d,
            d >= 0,
    ;
}

/// One round of square-and-multiply keeps the residue of `r * base^e`.
proof fn lemma_powmod_step(r: int, base: int, e: nat, m: int)
    requires
        m > 0,
        e > 0,
    ensures
        e % 2 == 1 ==> (((r * base) % m) * pow((base * base) % m, e / 2)) % m == (r * pow(base, e))
            % m,
        e % 2 == 0 ==> (r * pow((base * base) % m, e / 2)) % m == (r * pow(base, e)) % m,
{
    let sq = base * base;
    let h = e / 2;
    reveal_with_fuel(pow, 3);
    assert(pow(base, 2) == sq) by (nonlinear_arith)
        requires
            pow(base, 2) == base * (base * 1),
            sq == base * base,
    ;
    lemma_pow_multiplies(base, 2, h);
    assert(pow(sq, h) == pow(base, 2 * h));
    lemma_pow_mod_noop(sq, h, m);
    let y = pow(sq % m, h);
    let y2 = pow(sq, h);
    assert(y % m == y2 % m);
    if e % 2 == 0 {
        assert(2 * h == e);
        lemma_mul_mod_noop_general(r, y, m);
        lemma_mul_mod_noop_general(r, y2, m);
    } else {
        assert(2 * h + 1 == e);
        assert(pow(base, e) == base * pow(base, (e - 1) as nat));
        let x = r * base;
        lemma_mul_mod_noop_general(x, y, m);
        lemma_mul_mod_noop_general(x, y2, m);
        lemma_mul_is_associative(r, base, y2);
    }
}

/// `(a ^ b) mod m` by square-and-multiply; `None` when `m` is 0.
pub fn powmod(a: u64, b: u64, m: u64) -> (r: Option<u64>)
    ensures
        m == 0 ==> r is None,
        m != 0 ==> r == Some((pow(a as int, b as nat) % (m as int)) as u64),
{
    if m == 0 {
        return None;
    }
    let mut result: u64 = 1 % m;
    let mut base: u64 = a % m;
    let mut exponent: u64 = b;
    proof {
        lemma_pow_mod_noop(a as int, b as nat, m as int);
        lemma_mul_mod_noop_general(1, pow((a % m) as int, b as nat), m as int);
    }
    while exponent > 0
        invariant
            m > 0,
            result < m,
            base < m,
            (result * pow(base as int, exponent as nat)) % (m as int) == pow(a as int, b as nat) % (
            m as int),
        decreases exponent,
    {
        proof {
            lemma_powmod_step(result as int, base as int, exponent as nat, m as int);
            assert(result as u128 * base as u128 <= 0xffff_ffff_ffff_ffff * 0xffff_ffff_ffff_ffff)
                by (nonlinear_arith)
                requires
                    result <= 0xffff_ffff_ffff_ffff,
                    base <= 0xffff_ffff_ffff_ffff,
            ;
            assert(base as u128 * base as u128 <= 0xffff_ffff_ffff_ffff * 0xffff_ffff_ffff_ffff)
                by (nonlinear_arith)
                requires
                    base <= 0xffff_ffff_ffff_ffff,
            ;
            assert(exponent & 1 == exponent % 2) by (bit_vector);
            assert(exponent >> 1 == exponent / 2) by (bit_vector);
        }
        if exponent & 1 != 0 {
            result = ((result as u128 * base as u128) % (m as u128)) as u64;
        }
        base = ((base as u128 * base as u128) % (m as u128)) as u64;
        exponent = exponent >> 1;
    }
    proof {
        lemma_pow0(base as int);
        lemma_small_mod(result as nat, m as nat);
    }
    Some(result)
}

/// The greatest common divisor of the magnitudes of `a` and `b`: `|a|` when
/// `b` is 0, and 0 only when both are 0.
///
/// The result is unsigned, so that it holds `2^63`, the magnitude of
/// `i64::MIN`.
pub fn gcd(a: i64, b: i64) -> (r: u64)
    ensures
        is_gcd(r as nat, magnitude(a), magnitude(b)),
        b == 0 ==> r == magnitude(a),
{
    let mut x: u64 = if a == i64::MIN {
        0x8000_0000_0000_0000u64
    } else if a < 0 {
        (-a) as u64
    } else {
        a as u64
    };
    let mut y: u64 = if b == i64::MIN {
        0x8000_0000_0000_0000u64
    } else if b < 0 {
        (-b) as u64
    } else {
        b as u64
    };
    let ghost a0 = magnitude(a);
    let ghost b0 = magnitude(b);
    while y != 0
        invariant
            b == 0 ==> x == a0 && y == 0,
            forall|d: nat|
                (divides(d, x as nat) && divides(d, y as nat)) <==> (divides(d, a0) && divides(
                    d,
                    b0,
                )),
        decreases y,
    {
        proof {
            assert forall|d: nat|
                (divides(d, y as nat) && divides(d, (x % y) as nat)) <==> (divides(d, a0)
                    && divides(d, b0)) by {
                lemma_euclid_step(x as nat, y as nat, d);
            }
        }
        let rest = x % y;
        x = y;
        y = rest;
    }
    proof {
        lemma_divides_self_and_zero(x as nat);
        assert(divides(x as nat, x as nat) && divides(x as nat, y as nat));
        assert forall|d: nat| divides(d, a0) && divides(d, b0) implies #[trigger] divides(
            d,
            x as nat,
        ) by {
            assert(divides(d, x as nat) && divides(d, y as nat));
        }
    }
    x
}

/// The product of two bounded numbers is bounded by the product of the
/// bounds.
proof fn lemma_product_bound(q: int, y: int, qm: int, mb: int)
    requires
        0 <= qm,
        0 <= mb,
        -qm <= q <= qm,
        -mb <= y <= mb,
    ensures
        -(qm * mb) <= q * y <= qm * mb,
{
    assert(-(qm * mb) <= q * y <= qm * mb) by (nonlinear_arith)
        requires
            0 <= qm,
            0 <= mb,
            -qm <= q <= qm,
            -mb <= y <= mb,
    ;
}

/// Whether the greatest common divisor of `a` and `b` is `2^63`, which no
/// `i64` holds: one operand is `i64::MIN` and the other is 0 or `i64::MIN`.
pub open spec fn gcd_too_wide(a: i64, b: i64) -> bool {
    (a == i64::MIN && (b == 0 || b == i64::MIN)) || (a == 0 && b == i64::MIN)
}

/// The extended Euclidean algorithm: `(g, x, y)` with `g` the greatest
/// common divisor of `a` and `b` and `a * x + b * y == g`.
///
/// The one thing asked of the operands is that `g` fits in an `i64`.
pub fn extended_gcd(a: i64, b: i64) -> (r: (i64, i64, i64))
    requires
        !gcd_too_wide(a, b),
    ensures
        r.0 >= 0,
        a * r.1 + b * r.2 == r.0,
        is_gcd(r.0 as nat, magnitude(a), magnitude(b)),
        b == 0 ==> r.0 == magnitude(a) && r.1 == (if a >= 0 {
            1i64
        } else {
            -1i64
        }) && r.2 == 0,
        b != 0 ==> 2 * magnitude(r.1) <= magnitude(b) && (magnitude(r.2) <= 1 || 2 * magnitude(
            r.2,
        ) <= magnitude(a)),
    decreases magnitude(b),
{
    if b == 0 {
        let abs_a: i64 = if a < 0 {
            -a
        } else {
            a
        };
        proof {
            lemma_divides_self_and_zero(abs_a as nat);
            assert(a * (if a >= 0 {
                1int
            } else {
                -1int
            }) == abs_a) by (nonlinear_arith)
                requires
                    abs_a == (if a < 0 {
                        -a
                    } else {
                        a as int
                    }),
            ;
        }
        (
            abs_a,
            if a >= 0 {
                1
            } else {
                -1
            },
            0,
        )
    } else {
        let ma: u64 = if a == i64::MIN {
            0x8000_0000_0000_0000u64
        } else if a < 0 {
            (-a) as u64
        } else {
            a as u64
        };
        let mb: u64 = if b == i64::MIN {
            0x8000_0000_0000_0000u64
        } else if b < 0 {
            (-b) as u64
        } else {
            b as u64
        };
        let qm: u64 = ma / mb;
        let rm: u64 = ma % mb;
        proof {
            lemma_fundamental_div_mod(ma as int, mb as int);
            assert(qm * mb <= ma && ma == qm * mb + rm) by (nonlinear_arith)
                requires
                    ma == mb * qm + rm,
                    rm >= 0,
            ;
        }
        let rest: i64 = if a < 0 {
            -(rm as i64)
        } else {
            rm as i64
        };
        let quotient: i128 = if (a < 0) != (b < 0) {
            -(qm as i128)
        } else {
            qm as i128
        };
        assert(a == quotient * b + rest) by (nonlinear_arith)
            requires
                ma == mb * qm + rm,
                ma == (if a < 0 {
                    -a
                } else {
                    a as int
                }),
                mb == (if b < 0 {
                    -b
                } else {
                    b as int
                }),
                rest == (if a < 0 {
                    -rm
                } else {
                    rm as int
                }),
                quotient == (if (a < 0) != (b < 0) {
                    -qm
                } else {
                    qm as int
                }),
        ;
        assert(magnitude(rest) == rm);
        let (g, x1, y1) = extended_gcd(b, rest);
        proof {
            if rest == 0 {
                assert(y1 == 0);
                assert(quotient * y1 == 0) by (nonlinear_arith)
                    requires
                        y1 == 0,
                ;
            } else {
                assert(mb >= 2);
                assert(-rm <= 2 * x1 <= rm);
                assert(-mb <= 2 * y1 <= mb);
                lemma_product_bound(quotient as int, 2 * y1, qm as int, mb as int);
                assert(quotient * (2 * y1) == 2 * (quotient * y1)) by (nonlinear_arith);
                assert(-ma <= 2 * (x1 - quotient * y1) <= ma);
            }
        }
        let x = y1;
        let wide: i128 = x1 as i128 - quotient * (y1 as i128);
        let y = wide as i64;
        proof {
            assert(a * x + b * y == g) by (nonlinear_arith)
                requires
                    a == quotient * b + rest,
                    b * x1 + rest * y1 == g,
                    x == y1,
                    y == x1 - quotient * y1,
            ;
            assert forall|d: nat| divides(d, ma as nat) && divides(d, mb as nat) implies #[trigger] divides(
                d,
                g as nat,
            ) by {
                lemma_euclid_step(ma as nat, mb as nat, d);
            }
            lemma_euclid_step(ma as nat, mb as nat, g as nat);
        }
        (g, x, y)
    }
}

/// The inverse of `a` modulo `m`, in `[0, m)`; `None` when `a` or `m` is 0
/// or the two have a common divisor other than 1.
pub fn invmod(a: u64, m: u64) -> (r: Option<u64>)
    ensures
        r is Some <==> (a != 0 && m != 0 && coprime(a as nat, m as nat)),
        r matches Some(x) ==> x < m && (a * x) % (m as int) == 1int % (m as int),
{
    if a == 0 || m == 0 {
        return None;
    }
    let mut r0: u64 = m;
    let mut r1: u64 = a % m;
    let mut t0: u64 = 0;
    let mut t1: u64 = 1 % m;
    let ghost mut k0: int = -1;
    let ghost mut k1: int = 0;
    proof {
        lemma_fundamental_div_mod(a as int, m as int);
        if m == 1 {
            k1 = 0;
            assert(t1 == 0 && r1 == 0);
            assert(t1 * a == r1 + k1 * m) by (nonlinear_arith)
                requires
                    t1 == 0,
                    r1 == 0,
                    k1 == 0,
            ;
        } else {
            lemma_small_mod(1, m as nat);
            let whole = (a / m) as int;
            k1 = whole;
            assert(t1 * a == r1 + k1 * m) by (nonlinear_arith)
                requires
                    a == m * whole + r1,
                    t1 == 1,
                    k1 == whole,
            ;
        }
        assert(t0 * a == r0 + k0 * m) by (nonlinear_arith)
            requires
                t0 == 0,
                r0 == m,
                k0 == -1,
        ;
        assert forall|d: nat|
            (divides(d, r0 as nat) && divides(d, r1 as nat)) <==> (divides(d, a as nat) && divides(
                d,
                m as nat,
            )) by {
            lemma_euclid_step(a as nat, m as nat, d);
        }
    }
    while r1 != 0
        invariant
            m > 0,
            r0 <= m,
            r1 < m,
            t0 < m,
            t1 < m,
            r0 > 0,
            t0 * a == r0 + k0 * m,
            t1 * a == r1 + k1 * m,
            forall|d: nat|
                (divides(d, r0 as nat) && divides(d, r1 as nat)) <==> (divides(d, a as nat)
                    && divides(d, m as nat)),
        decreases r1,
    {
        let q: u64 = r0 / r1;
        let r2: u64 = r0 % r1;
        proof {
            assert(q as u128 * t1 as u128 <= 0xffff_ffff_ffff_ffff * 0xffff_ffff_ffff_ffff)
                by (nonlinear_arith)
                requires
                    q <= 0xffff_ffff_ffff_ffff,
                    t1 <= 0xffff_ffff_ffff_ffff,
            ;
        }
        let u: u128 = (q as u128 * t1 as u128) % (m as u128);
        let s: u128 = t0 as u128 + m as u128 - u;
        let t2: u64 = (s % (m as u128)) as u64;
        proof {
            let p = (q as int) * (t1 as int);
            let w = p / (m as int);
            let j = (s as int) / (m as int);
            lemma_fundamental_div_mod(p, m as int);
            lemma_fundamental_div_mod(s as int, m as int);
            lemma_fundamental_div_mod(r0 as int, r1 as int);
            let k2 = k0 - q * k1 + (1 + w - j) * a;
            assert(t2 * a == r2 + k2 * m) by (nonlinear_arith)
                requires
                    p == q * t1,
                    p == m * w + u,
                    s == t0 + m - u,
                    s == m * j + t2,
                    r0 == r1 * q + r2,
                    t0 * a == r0 + k0 * m,
                    t1 * a == r1 + k1 * m,
                    k2 == k0 - q * k1 + (1 + w - j) * a,
            ;
            assert forall|d: nat|
                (divides(d, r1 as nat) && divides(d, r2 as nat)) <==> (divides(d, a as nat)
                    && divides(d, m as nat)) by {
                lemma_euclid_step(r0 as nat, r1 as nat, d);
            }
            k0 = k1;
            k1 = k2;
        }
        r0 = r1;
        r1 = r2;
        t0 = t1;
        t1 = t2;
    }
    proof {
        lemma_divides_self_and_zero(r0 as nat);
        assert(divides(r0 as nat, r0 as nat) && divides(r0 as nat, r1 as nat));
        assert(divides(r0 as nat, a as nat) && divides(r0 as nat, m as nat));
    }
    if r0 != 1 {
        return None;
    }
    proof {
        assert forall|d: nat| divides(d, a as nat) && #[trigger] divides(d, m as nat) implies d
            == 1 by {
            assert(divides(d, r0 as nat) && divides(d, r1 as nat));
            lemma_divides_one(d);
        }
        lemma_mod_multiples_vanish(k0, 1, m as int);
        assert(a * t0 == m * k0 + 1) by (nonlinear_arith)
            requires
                t0 * a == r0 + k0 * m,
                r0 == 1,
        ;
    }
    Some(t0)
}

} // verus!
