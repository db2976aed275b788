//! Division by a scalar divisor through multiplication.
//!
//! A divisor of magnitude at least two is turned once into a multiplier and
//! a shift (Granlund and Montgomery's method in libdivide's branch-free form)
//! so that every quotient is one high multiplication, two additions and two
//! shifts. The formula neither traps nor overflows: `i32::MIN` divided by a
//! divisor of magnitude at least two fits, and the remainder `n - q * d` is
//! exact. Zero and the units are not prepared: zero is an error and
//! `i32::MIN / -1` overflows, so both stay with the checked operations.

use vstd::arithmetic::div_mod::{
    lemma_div_plus_one, lemma_fundamental_div_mod, lemma_fundamental_div_mod_converse,
    lemma_small_mod,
};
use vstd::arithmetic::power2::{
    lemma2_to64, lemma_pow2_adds, lemma_pow2_pos, lemma_pow2_strictly_increases, lemma_pow2_unfold,
    pow2,
};
use vstd::bits::lemma_u64_shl_is_mul;
use vstd::prelude::*;
use vstd::std_specs::bits::axiom_u32_leading_zeros;

verus! {

/// The magnitude of an integer.
pub open spec fn magnitude(n: int) -> int {
    if n < 0 {
        -n
    } else {
        n
    }
}

/// The quotient truncated toward zero.
pub open spec fn truncated_quotient(n: int, d: int) -> int {
    let quotient = magnitude(n) / magnitude(d);
    if (n < 0) == (d < 0) {
        quotient
    } else {
        -quotient
    }
}

/// The remainder of the truncated quotient, with the dividend's sign.
pub open spec fn truncated_remainder(n: int, d: int) -> int {
    let remainder = magnitude(n) % magnitude(d);
    if n < 0 {
        -remainder
    } else {
        remainder
    }
}

/// A divisor of magnitude at least two, prepared for division by
/// multiplication.
#[derive(Clone, Copy, Debug, Eq, PartialEq)]
pub struct Divisor {
    /// `floor(2^(32 + shift) / |d|) + 1`, which has bit 31 set and so reads
    /// as negative; zero for a power of two.
    pub magic: i32,
    /// `floor(log2 |d|)`: the final arithmetic right shift.
    pub shift: u32,
    /// What a negative intermediate quotient gets before the shift so that
    /// the result truncates toward zero: `2^shift`, or `2^shift - 1` for a
    /// power of two.
    pub bias: i32,
    /// `-1` for a negative divisor, else `0`: the quotient by the magnitude
    /// is negated as `(q ^ sign) - sign`.
    pub sign: i32,
    /// The divisor itself, for the remainder.
    pub value: i32,
}

/// Dividing twice, rounding down, divides by the product.
proof fn lemma_floor_twice(x: int, c: int, d: int)
    requires
        0 < c,
        0 < d,
    ensures
        0 < c * d,
        (x / c) / d == x / (c * d),
{
    let a = x / c;
    let b = a / d;
    lemma_fundamental_div_mod(x, c);
    lemma_fundamental_div_mod(a, d);
    let rest = c * (a % d) + x % c;
    assert(0 <= rest < c * d && x == b * (c * d) + rest && 0 < c * d) by (nonlinear_arith)
        requires
            rest == c * (a % d) + x % c,
            0 <= x % c < c,
            0 <= a % d < d,
            x == c * a + x % c,
            a == d * b + a % d,
            0 < c,
            0 < d,
    ;
    lemma_fundamental_div_mod_converse(x, c * d, b, rest);
}

/// An arithmetic right shift divides by a power of two, rounding down.
proof fn lemma_shr(x: i32, shift: u32)
    requires
        shift < 32,
    ensures
        (x >> shift) == x as int / pow2(shift as nat) as int,
    decreases shift,
{
    if shift == 0 {
        assert(x >> 0u32 == x) by (bit_vector);
        lemma2_to64();
        assert(x as int / pow2(0) as int == x);
    } else {
        let less = (shift - 1) as u32;
        lemma_shr(x, less);
        let y = x >> less;
        assert(x >> shift == (x >> less) >> 1u32) by (bit_vector)
            requires
                0 < shift < 32,
                less == shift - 1,
        ;
        assert((y >> 1u32) * 2 <= y && y < (y >> 1u32) * 2 + 2) by (bit_vector);
        lemma_pow2_pos(less as nat);
        lemma_pow2_unfold(shift as nat);
        lemma_floor_twice(x as int, pow2(less as nat) as int, 2);
        assert(pow2(shift as nat) == pow2(less as nat) * 2);
        assert(y >> 1u32 == y as int / 2);
        assert(y == x as int / pow2(less as nat) as int);
    }
}

/// A shifted unit is a power of two.
proof fn lemma_power(shift: u32)
    requires
        shift < 32,
    ensures
        (1u32 << shift) == pow2(shift as nat),
{
    lemma_pow2_bound(shift);
    vstd::bits::lemma_u32_shl_is_mul(1, shift);
}

/// The powers of two that a `u32` holds.
proof fn lemma_pow2_bound(shift: u32)
    requires
        shift < 32,
    ensures
        0 < pow2(shift as nat) <= 0x8000_0000,
        shift < 31 ==> pow2(shift as nat) <= 0x4000_0000,
{
    lemma2_to64();
    lemma_pow2_pos(shift as nat);
    if shift < 31 {
        lemma_pow2_strictly_increases(shift as nat, 31);
        lemma_pow2_unfold(31);
        if shift < 30 {
            lemma_pow2_strictly_increases(shift as nat, 30);
        }
    }
}

/// The scale of a multiplier.
proof fn lemma_scale(shift: u32)
    requires
        shift < 32,
    ensures
        pow2((32 + shift) as nat) == 0x1_0000_0000 * pow2(shift as nat),
        (1u64 << ((32 + shift) as u64)) == pow2((32 + shift) as nat),
{
    lemma2_to64();
    lemma_pow2_adds(32, shift as nat);
    lemma_pow2_bound(shift);
    lemma_u64_shl_is_mul(1, (32 + shift) as u64);
}

/// The high half of a product.
proof fn lemma_high(product: i64)
    ensures
        (product >> 32u32) == product as int / 0x1_0000_0000,
{
    assert((product >> 32u32) * 0x1_0000_0000 <= product && product < (product >> 32u32)
        * 0x1_0000_0000 + 0x1_0000_0000) by (bit_vector);
}

/// The rounded-up reciprocal of `m` gives quotients that exceed the true ones
/// by less than one step.
proof fn lemma_reciprocal(m: int, scale: int, multiplier: int, p: int)
    requires
        2 <= m,
        multiplier == scale / m + 1,
        0 <= p,
        m * p < scale,
    ensures
        (p / m) * scale <= multiplier * p < (p / m + 1) * scale,
        p > 0 ==> (p / m) * scale < multiplier * p,
{
    let k = p / m;
    let r = p % m;
    let excess = m - scale % m;
    lemma_fundamental_div_mod(p, m);
    lemma_fundamental_div_mod(scale, m);
    assert(m * multiplier == scale + excess) by (nonlinear_arith)
        requires
            multiplier == scale / m + 1,
            scale == m * (scale / m) + scale % m,
            excess == m - scale % m,
    ;
    assert(0 < excess <= m);
    assert(0 <= excess * p < scale) by (nonlinear_arith)
        requires
            0 < excess <= m,
            0 <= p,
            m * p < scale,
    ;
    let product = multiplier * p;
    assert(m * product == m * (k * scale) + r * scale + excess * p) by (nonlinear_arith)
        requires
            product == multiplier * p,
            m * multiplier == scale + excess,
            p == m * k + r,
    ;
    assert(0 <= r * scale <= (m - 1) * scale) by (nonlinear_arith)
        requires
            0 <= r <= m - 1,
            0 <= scale,
    ;
    assert(m * (k * scale) <= m * product);
    assert(k * scale <= product) by (nonlinear_arith)
        requires
            m * (k * scale) <= m * product,
            0 < m,
    ;
    assert(m * product < m * (k * scale) + m * scale) by (nonlinear_arith)
        requires
            m * product == m * (k * scale) + r * scale + excess * p,
            r * scale <= (m - 1) * scale,
            excess * p < scale,
    ;
    assert(product < k * scale + scale) by (nonlinear_arith)
        requires
            m * product < m * (k * scale) + m * scale,
            0 < m,
    ;
    assert((k + 1) * scale == k * scale + scale) by (nonlinear_arith);
    if p > 0 {
        assert(excess * p > 0) by (nonlinear_arith)
            requires
                excess > 0,
                p > 0,
        ;
        assert(k * scale < product) by (nonlinear_arith)
            requires
                m * product == m * (k * scale) + r * scale + excess * p,
                0 <= r * scale,
                excess * p > 0,
                0 < m,
        ;
    }
}

/// The multiplier has 32 bits, the highest of them set.
proof fn lemma_multiplier(size: int, power: int)
    requires
        0 < power < size < 2 * power,
        power <= 0x4000_0000,
    ensures
        0x8000_0000 <= (0x1_0000_0000 * power) / size <= 0xffff_fffe,
{
    let scale = 0x1_0000_0000 * power;
    lemma_fundamental_div_mod(scale, size);
    let whole = scale / size;
    let rest = scale % size;
    assert(0x8000_0000 <= whole) by (nonlinear_arith)
        requires
            scale == 0x1_0000_0000 * power,
            scale == size * whole + rest,
            0 <= rest < size,
            size <= 2 * power - 1,
            0 < power,
    ;
    assert(whole <= 0xffff_fffe) by (nonlinear_arith)
        requires
            scale == 0x1_0000_0000 * power,
            scale == size * whole + rest,
            0 <= rest,
            power + 1 <= size,
            size <= 2 * power - 1,
            power <= 0x4000_0000,
            0 < power,
    ;
}

/// The intermediate quotient of a divisor that is no power of two, shifted
/// after the bias, is the truncated quotient by the magnitude.
proof fn lemma_scaled(size: int, power: int, multiplier: int, n: int)
    requires
        0 < power < size < 2 * power,
        power <= 0x4000_0000,
        multiplier == (0x1_0000_0000 * power) / size + 1,
        -0x8000_0000 <= n < 0x8000_0000,
    ensures
        ({
            let q = (multiplier * n) / 0x1_0000_0000;
            &&& ((multiplier - 0x1_0000_0000) * n) / 0x1_0000_0000 == q - n
            &&& n >= 0 ==> 0 <= q <= n && q / power == n / size
            &&& n < 0 ==> n <= q < 0 && (q + power) / power == -((-n) / size)
        }),
{
    let scale = 0x1_0000_0000 * power;
    let product = multiplier * n;
    let q = product / 0x1_0000_0000;
    lemma_multiplier(size, power);
    assert((multiplier - 0x1_0000_0000) * n == product - 0x1_0000_0000 * n) by (nonlinear_arith)
        requires
            product == multiplier * n,
    ;
    lemma_floor_twice(product, 0x1_0000_0000, power);
    let p = magnitude(n);
    assert(size * p < scale) by (nonlinear_arith)
        requires
            size <= 2 * power - 1,
            0 <= p <= 0x8000_0000,
            0 < power,
            0 < size,
            scale == 0x1_0000_0000 * power,
    ;
    lemma_reciprocal(size, scale, multiplier, p);
    let k = p / size;
    if n >= 0 {
        assert((k + 1) * scale == k * scale + scale) by (nonlinear_arith);
        lemma_fundamental_div_mod_converse(product, scale, k, product - k * scale);
        assert(0 <= product <= 0x1_0000_0000 * n) by (nonlinear_arith)
            requires
                product == multiplier * n,
                0 <= multiplier <= 0x1_0000_0000,
                0 <= n,
        ;
    } else {
        assert(product == -(multiplier * p)) by (nonlinear_arith)
            requires
                product == multiplier * n,
                p == -n,
        ;
        assert(product == (-(k + 1)) * scale + ((k + 1) * scale - multiplier * p))
            by (nonlinear_arith)
            requires
                product == -(multiplier * p),
        ;
        assert((k + 1) * scale == k * scale + scale) by (nonlinear_arith);
        lemma_fundamental_div_mod_converse(
            product,
            scale,
            -(k + 1),
            (k + 1) * scale - multiplier * p,
        );
        lemma_div_plus_one(q, power);
        assert(0x1_0000_0000 * n <= product < 0) by (nonlinear_arith)
            requires
                product == multiplier * n,
                0 < multiplier <= 0x1_0000_0000,
                n < 0,
        ;
    }
}

/// A power of two divides by a shift, after the bias for negative dividends.
proof fn lemma_shifted(power: int, n: int)
    requires
        0 < power,
    ensures
        n < 0 ==> (n + (power - 1)) / power == -((-n) / power),
{
    if n < 0 {
        let p = -n;
        lemma_fundamental_div_mod(p, power);
        let k = p / power;
        let rest = power - 1 - p % power;
        assert(n + (power - 1) == (-k) * power + rest) by (nonlinear_arith)
            requires
                p == power * k + p % power,
                p == -n,
                rest == power - 1 - p % power,
        ;
        lemma_fundamental_div_mod_converse(n + (power - 1), power, -k, rest);
    }
}

/// The quotient by a magnitude of at least two is at most half the dividend.
pub(crate) proof fn lemma_halved(p: int, size: int)
    requires
        0 <= p,
        2 <= size,
    ensures
        0 <= p / size,
        2 * (p / size) <= p,
        (p / size) * size <= p,
{
    lemma_fundamental_div_mod(p, size);
    let k = p / size;
    assert(0 <= k) by (nonlinear_arith)
        requires
            p == size * k + p % size,
            0 <= p,
            p % size < size,
            0 < size,
    ;
    assert(2 * k <= p && k * size <= p) by (nonlinear_arith)
        requires
            p == size * k + p % size,
            0 <= p % size,
            0 <= k,
            2 <= size,
    ;
}

impl Divisor {
    /// The fields follow from the divisor.
    pub open spec fn wf(self) -> bool {
        let size = magnitude(self.value as int);
        let power = pow2(self.shift as nat) as int;
        &&& 2 <= size
        &&& self.shift < 32
        &&& power <= size < 2 * power
        &&& self.magic == if size == power {
            0
        } else {
            pow2((32 + self.shift) as nat) as int / size + 1 - 0x1_0000_0000
        }
        &&& self.bias == if size == power {
            power - 1
        } else {
            power
        }
        &&& self.sign == if self.value < 0 {
            -1int
        } else {
            0
        }
    }

    /// Prepare `d`; `None` for 0, 1 and -1.
    pub fn new(d: i32) -> (divisor: Option<Divisor>)
        ensures
            divisor is None <==> -1 <= d <= 1,
            divisor matches Some(divisor) ==> divisor.wf() && divisor.value == d,
    {
        let size: u32 = if d < 0 {
            (0i64 - d as i64) as u32
        } else {
            d as u32
        };
        if size < 2 {
            return None;
        }
        proof {
            axiom_u32_leading_zeros(size);
        }
        let shift: u32 = 31 - size.leading_zeros();
        let power: u32 = 1u32 << shift;
        proof {
            let above = (shift + 1) as u32;
            assert(size >> above == 0);
            assert(power <= size && size - power < power) by (bit_vector)
                requires
                    shift < 32,
                    above == shift + 1,
                    (size >> shift) & 1u32 != 0,
                    above < 32 ==> size >> above == 0,
                    power == 1u32 << shift,
            ;
            lemma_power(shift);
        }
        let power_of_two = size == power;
        let magic: i32 = if power_of_two {
            0
        } else {
            proof {
                lemma_scale(shift);
                lemma_pow2_bound(shift);
                lemma2_to64();
                lemma_multiplier(size as int, power as int);
            }
            let multiplier: u64 = (1u64 << ((32 + shift) as u64)) / size as u64 + 1;
            proof {
                let low = multiplier as u32;
                assert(low >= 0x8000_0000 ==> low as i32 == low - 0x1_0000_0000) by (bit_vector);
            }
            (multiplier as u32) as i32
        };
        let bias: i32 = if power_of_two {
            (power - 1) as i32
        } else {
            power as i32
        };
        let sign: i32 = if d < 0 {
            -1
        } else {
            0
        };
        Some(Divisor { magic, shift, bias, sign, value: d })
    }

    /// `n / d`, truncating toward zero.
    ///
    /// The high half of the product is `floor(magic * n / 2^32) - n` when
    /// `magic` reads as negative and `0` for a power of two; adding `n` gives
    /// `floor(2^(32 + shift) / |d| * n / 2^32)` or `n`. That is one below the
    /// truncated quotient's shifted form for negative dividends, which the
    /// bias corrects before the shift.
    #[verifier::spinoff_prover]
    pub fn quotient(self, n: i32) -> (quotient: i32)
        requires
            self.wf(),
        ensures
            quotient == truncated_quotient(n as int, self.value as int),
    {
        let ghost size = magnitude(self.value as int);
        let ghost power = pow2(self.shift as nat) as int;
        let ghost p = magnitude(n as int);
        proof {
            lemma_pow2_bound(self.shift);
            lemma2_to64();
            lemma_scale(self.shift);
            if size != power {
                lemma_scaled(size, power, self.magic + 0x1_0000_0000, n as int);
            }
            lemma_shifted(power, n as int);
            lemma_halved(p, size);
            assert(-0x4000_0000_0000_0000 <= self.magic * n <= 0x4000_0000_0000_0000)
                by (nonlinear_arith)
                requires
                    -0x8000_0000 <= self.magic < 0x8000_0000,
                    -0x8000_0000 <= n < 0x8000_0000,
            ;
        }
        let product: i64 = self.magic as i64 * n as i64;
        proof {
            lemma_high(product);
        }
        let high: i32 = (product >> 32u32) as i32;
        let sum: i32 = high.wrapping_add(n);
        proof {
            let bias = self.bias;
            let scaled = ((self.magic + 0x1_0000_0000) * n) / 0x1_0000_0000;
            if size == power {
                assert(self.magic * n == 0) by (nonlinear_arith)
                    requires
                        self.magic == 0,
                ;
                assert(sum == n);
            } else {
                assert(product as int / 0x1_0000_0000 == scaled - n);
                assert(high == scaled - n);
                assert(sum == scaled);
            }
            lemma_shr(sum, 31);
            assert(sum >> 31u32 == if sum < 0 {
                -1int
            } else {
                0
            });
            assert(0i32 & bias == 0 && -1i32 & bias == bias) by (bit_vector);
        }
        let biased: i32 = sum.wrapping_add((sum >> 31u32) & self.bias);
        proof {
            assert(biased == if sum < 0 {
                sum + self.bias
            } else {
                sum as int
            });
            lemma_shr(biased, self.shift);
        }
        let q: i32 = biased >> self.shift;
        proof {
            assert(q == if n < 0 {
                -(p / size)
            } else {
                p / size
            });
            assert(q ^ 0i32 == q && (q ^ -1i32) == -1 - q) by (bit_vector);
        }
        (q ^ self.sign).wrapping_sub(self.sign)
    }

    /// `n % d`, with the dividend's sign.
    pub fn remainder(self, n: i32) -> (remainder: i32)
        requires
            self.wf(),
        ensures
            remainder == truncated_remainder(n as int, self.value as int),
    {
        let quotient = self.quotient(n);
        proof {
            let size = magnitude(self.value as int);
            let p = magnitude(n as int);
            let k = p / size;
            lemma_halved(p, size);
            assert(quotient * self.value == if n < 0 {
                -(k * size)
            } else {
                k * size
            }) by (nonlinear_arith)
                requires
                    quotient == if (n < 0) == (self.value < 0) {
                        k
                    } else {
                        -k
                    },
                    size == if self.value < 0 {
                        -self.value
                    } else {
                        self.value as int
                    },
            ;
            lemma_fundamental_div_mod(p, size);
            assert(k * size == size * k) by (nonlinear_arith);
            let exact = quotient * self.value;
            if exact >= 0 {
                lemma_small_mod(exact as nat, 0x1_0000_0000);
            } else {
                lemma_fundamental_div_mod_converse(
                    exact,
                    0x1_0000_0000,
                    -1,
                    exact + 0x1_0000_0000,
                );
            }
        }
        n.wrapping_sub(quotient.wrapping_mul(self.value))
    }
}

/// Truncated division: quotient and remainder make up the dividend, and the
/// remainder is smaller than the divisor and has the dividend's sign.
pub proof fn lemma_truncated(n: int, d: int)
    requires
        d != 0,
    ensures
        ({
            let q = truncated_quotient(n, d);
            let r = truncated_remainder(n, d);
            &&& q * d + r == n
            &&& d > 0 ==> -d < r < d
            &&& d < 0 ==> d < r < -d
            &&& r > 0 ==> n > 0
            &&& r < 0 ==> n < 0
        }),
{
    let p = magnitude(n);
    let size = magnitude(d);
    let k = p / size;
    lemma_fundamental_div_mod(p, size);
    assert(0 <= p % size < size) by {
        vstd::arithmetic::div_mod::lemma_mod_bound(p, size);
    }
    assert(truncated_quotient(n, d) * d == if n < 0 {
        -(size * k)
    } else {
        size * k
    }) by (nonlinear_arith)
        requires
            truncated_quotient(n, d) == if (n < 0) == (d < 0) {
                k
            } else {
                -k
            },
            size == if d < 0 {
                -d
            } else {
                d
            },
    ;
}

/// What a prepared divisor returns when it is called: a quotient and a remainder
/// that make up the dividend, the remainder smaller than the divisor and with the
/// dividend's sign.
pub proof fn lemma_divisor_calls(d: i32, divisor: Divisor, n: i32, q: i32, r: i32)
    requires
        call_ensures(Divisor::new, (d,), Some(divisor)),
        call_ensures(Divisor::quotient, (divisor, n), q),
        call_ensures(Divisor::remainder, (divisor, n), r),
    ensures
        d < -1 || d > 1,
        q * d + r == n,
        d > 0 ==> -d < r < d,
        d < 0 ==> d < r < -d,
        r > 0 ==> n > 0,
        r < 0 ==> n < 0,
{
    lemma_truncated(n as int, d as int);
}

} // verus!
