//! Arithmetic as double-precision numbers have it, on integers: a result keeps
//! 53 significant bits, and is rounded to the nearest number that does, on a tie
//! to the even one.

use vstd::prelude::*;

verus! {

/// The first number that does not fit the significant bits.
pub const PRECISION: u128 = 9007199254740992;

/// How far apart the numbers with enough significant bits lie around `n`.
pub open spec fn spacing(n: nat) -> nat
    decreases n,
{
    if n < PRECISION {
        1
    } else {
        2 * spacing(n / 2)
    }
}

/// A number rounded to its significant bits.
pub open spec fn rounded(n: nat) -> nat {
    let u = spacing(n);
    if 2 * (n % u) > u || (2 * (n % u) == u && (n / u) % 2 == 1) {
        (n / u + 1) * u
    } else {
        n / u * u
    }
}

/// Whether a number is a power of two.
pub open spec fn is_power(n: nat) -> bool
    decreases n,
{
    n == 1 || (n > 1 && n % 2 == 0 && is_power(n / 2))
}

proof fn lemma_spacing(n: nat)
    ensures
        is_power(spacing(n)),
        spacing(n) >= 1,
        n < spacing(n) * PRECISION,
        n >= PRECISION ==> spacing(n) >= 2 && 2 * n >= spacing(n) * PRECISION,
        n < PRECISION ==> spacing(n) == 1,
    decreases n,
{
    if n >= PRECISION {
        lemma_spacing(n / 2);
        assert(spacing(n) / 2 == spacing(n / 2));
        if n / 2 < PRECISION {
            assert(spacing(n / 2) == 1);
        }
    }
}

/// The spacing is fixed by the range that a number lies in.
proof fn lemma_spacing_is(n: nat, u: nat)
    requires
        is_power(u),
        n < u * PRECISION,
        u > 1 ==> 2 * n >= u * PRECISION,
    ensures
        spacing(n) == u,
    decreases n,
{
    if u > 1 {
        assert(n >= PRECISION);
        lemma_spacing_is(n / 2, u / 2);
    }
}

proof fn lemma_scaled_once(n: nat)
    ensures
        rounded(2 * n) == 2 * rounded(n),
{
    lemma_spacing(n);
    let u = spacing(n);
    if n < PRECISION {
        assert(n % 1 == 0 && n / 1 == n);
        if 2 * n >= PRECISION {
            assert(spacing(n) == 1);
            assert(spacing(2 * n) == 2 * spacing((2 * n) / 2));
            assert((2 * n) % 2 == 0 && (2 * n) / 2 == n);
        } else {
            assert((2 * n) % 1 == 0 && (2 * n) / 1 == 2 * n);
            assert((2 * n) * 1 == 2 * n && n * 1 == n);
        }
    } else {
        assert((2 * n) / 2 == n);
        assert(spacing(2 * n) == 2 * u);
        let q = n / u;
        let r = n % u;
        vstd::arithmetic::div_mod::lemma_fundamental_div_mod(n as int, u as int);
        vstd::arithmetic::div_mod::lemma_mod_bound(n as int, u as int);
        assert(2 * n == q * (2 * u) + 2 * r) by (nonlinear_arith)
            requires
                n == u * q + r,
        ;
        vstd::arithmetic::div_mod::lemma_fundamental_div_mod_converse((2 * n) as int, (2 * u) as int, q as int, (2 * r) as int);
        assert((q + 1) * (2 * u) == 2 * ((q + 1) * u)) by (nonlinear_arith);
        assert(q * (2 * u) == 2 * (q * u)) by (nonlinear_arith);
    }
}

/// Rounding does not depend on the unit that is counted in.
proof fn lemma_scaled(n: nat, u: nat)
    requires
        is_power(u),
    ensures
        rounded(n * u) == rounded(n) * u,
    decreases u,
{
    if u > 1 {
        let h = u / 2;
        lemma_scaled(n, h);
        lemma_scaled_once(n * h);
        assert(n * u == 2 * (n * h)) by (nonlinear_arith)
            requires
                u == 2 * h,
        ;
        assert(rounded(n) * u == 2 * (rounded(n) * h)) by (nonlinear_arith)
            requires
                u == 2 * h,
        ;
    } else {
        assert(n * 1 == n && rounded(n) * 1 == rounded(n));
    }
}

/// The larger of two powers is a multiple of the smaller.
proof fn lemma_powers_divide(a: nat, b: nat)
    requires
        is_power(a),
        is_power(b),
        b <= a,
    ensures
        b >= 1,
        a == b * (a / b),
        is_power(a / b),
    decreases b,
{
    if b > 1 {
        let x = a / 2;
        let y = b / 2;
        lemma_powers_divide(x, y);
        let d = x / y;
        assert(a == b * d) by (nonlinear_arith)
            requires
                a == 2 * x,
                b == 2 * y,
                x == y * d,
        ;
        vstd::arithmetic::div_mod::lemma_fundamental_div_mod_converse(a as int, b as int, d as int, 0);
    }
}

proof fn lemma_power_product(a: nat, b: nat)
    requires
        is_power(a),
        is_power(b),
    ensures
        is_power(a * b),
        a * b >= 1,
    decreases a,
{
    if a > 1 {
        let h = a / 2;
        lemma_power_product(h, b);
        assert(a * b == 2 * (h * b)) by (nonlinear_arith)
            requires
                a == 2 * h,
        ;
        assert((a * b) / 2 == h * b);
    } else {
        assert(a * b == b) by (nonlinear_arith)
            requires
                a == 1,
        ;
    }
}

/// Rounding moves a number by a 2^53rd of it at most.
pub proof fn law_rounding_is_close(n: nat)
    ensures
        n * 9007199254740991 <= rounded(n) * 9007199254740992 <= n * 9007199254740993,
        n < PRECISION ==> rounded(n) == n,
{
    lemma_spacing(n);
    let u = spacing(n);
    let q = n / u;
    let r = n % u;
    vstd::arithmetic::div_mod::lemma_fundamental_div_mod(n as int, u as int);
    vstd::arithmetic::div_mod::lemma_mod_bound(n as int, u as int);
    assert((q + 1) * u == q * u + u) by (nonlinear_arith);
    assert(u * q == q * u) by (nonlinear_arith);
    assert(2 * rounded(n) <= 2 * n + u);
    assert(2 * n <= 2 * rounded(n) + u);
    if n < PRECISION {
        assert(n % 1 == 0 && n / 1 == n);
    }
}

// ---------------------------------------------------------------------------
// Rounded numbers
// ---------------------------------------------------------------------------

/// The largest number that is counted with: 2^150.
pub open spec fn ceiling() -> nat {
    0x40_0000_0000_0000_0000_0000_0000_0000_0000_0000nat
}

/// A rounded number: some significant bits, and the unit that they count.
#[derive(Debug, Clone, Copy)]
pub struct Double {
    bits: u128,
    unit: u128,
}

impl Double {
    /// The number.
    pub closed spec fn value(self) -> nat {
        self.bits as nat * self.unit as nat
    }

    /// The unit is a power of two, the smallest for which the bits suffice.
    pub closed spec fn valid(self) -> bool {
        &&& is_power(self.unit as nat)
        &&& self.bits <= PRECISION
        &&& self.unit > 1 ==> 2 * self.bits >= PRECISION
    }

    /// The power of two that the bits of a count have to be divided by.
    fn scale(n: u128) -> (u: u128)
        requires
            n <= 0x4_0000_0000_0000_0000_0000_0000_0000,
        ensures
            u == spacing(n as nat),
    {
        let mut u: u128 = 1;
        let ghost mut left: nat = n as nat;
        assert(n as nat / 1 == n);
        assert(1 * spacing(left) == spacing(left));
        while n / u >= PRECISION
            invariant
                1 <= u <= 0x8000_0000_0000_0000_0000_0000,
                left == n as nat / u as nat,
                spacing(n as nat) == u as nat * spacing(left),
                n <= 0x4_0000_0000_0000_0000_0000_0000_0000,
            decreases left,
        {
            proof {
                vstd::arithmetic::div_mod::lemma_fundamental_div_mod(n as int, u as int);
                vstd::arithmetic::div_mod::lemma_mod_bound(n as int, u as int);
                vstd::arithmetic::div_mod::lemma_div_denominator(n as int, u as int, 2);
                assert(u * PRECISION <= u * left) by (nonlinear_arith)
                    requires
                        PRECISION <= left,
                ;
                let half = spacing(left / 2);
                assert(u as nat * (2 * half) == (2 * u) as nat * half) by (nonlinear_arith);
                left = left / 2;
            }
            u = u * 2;
        }
        assert(u as nat * 1 == u);
        u
    }

    /// Round a count of units.
    fn counted(n: u128, unit: u128) -> (r: Self)
        requires
            is_power(unit as nat),
            n <= 0x4_0000_0000_0000_0000_0000_0000_0000,
            n as nat * unit as nat <= ceiling(),
            unit > 1 ==> 2 * n >= PRECISION,
        ensures
            r.valid(),
            r.value() == rounded(n as nat * unit as nat),
    {
        let u = Double::scale(n);
        proof {
            lemma_spacing(n as nat);
            vstd::arithmetic::div_mod::lemma_fundamental_div_mod(n as int, u as int);
            vstd::arithmetic::div_mod::lemma_mod_bound(n as int, u as int);
            lemma_scaled(n as nat, unit as nat);
            lemma_power_product(u as nat, unit as nat);
        }
        let q = n / u;
        let r = n % u;
        assert(q <= PRECISION - 1) by (nonlinear_arith)
            requires
                n == u * q + r,
                n < u * PRECISION,
                0 <= r,
                u >= 1,
        ;
        assert(u >= 2 ==> 2 * q >= PRECISION) by (nonlinear_arith)
            requires
                n == u * q + r,
                r < u,
                n >= PRECISION ==> 2 * n >= u * PRECISION,
                n < PRECISION ==> u == 1,
                PRECISION == 9007199254740992,
        ;
        let up = 2 * r > u || (2 * r == u && q % 2 == 1);
        let bits = if up {
            q + 1
        } else {
            q
        };
        proof {
            lemma_unit_is_small(n as nat, u as nat, unit as nat);
            assert((bits * u) * unit == bits * (u * unit)) by (nonlinear_arith);
        }
        Double { bits, unit: u * unit }
    }

    /// Round an integer.
    pub fn of(n: u128) -> (r: Self)
        requires
            n <= 0x4000_0000_0000_0000_0000_0000,
        ensures
            r.valid(),
            r.value() == rounded(n as nat),
    {
        assert(n as nat * 1 == n);
        Double::counted(n, 1)
    }

    /// Multiply by an integer, and round.
    pub fn times(self, factor: u128) -> (r: Self)
        requires
            self.valid(),
            1 <= factor <= 0x40_0000_0000_0000,
            self.value() * factor <= ceiling(),
        ensures
            r.valid(),
            r.value() == rounded(self.value() * factor as nat),
    {
        let (b, u) = (self.bits, self.unit);
        assert(b * factor <= PRECISION * 0x40_0000_0000_0000) by (nonlinear_arith)
            requires
                b <= PRECISION,
                factor <= 0x40_0000_0000_0000,
        ;
        assert(b * factor >= b) by (nonlinear_arith)
            requires
                factor >= 1,
        ;
        assert((b as nat * factor as nat) * u as nat == (b as nat * u as nat) * factor as nat) by (nonlinear_arith);
        Double::counted(b * factor, u)
    }

    /// Add, and round.
    pub fn plus(self, other: Self) -> (r: Self)
        requires
            self.valid(),
            other.valid(),
            self.value() + other.value() <= ceiling(),
        ensures
            r.valid(),
            r.value() == rounded(self.value() + other.value()),
    {
        if self.unit >= other.unit {
            self.plus_finer(other)
        } else {
            other.plus_finer(self)
        }
    }

    /// Add a number in units that are no larger. Far smaller ones do not show.
    fn plus_finer(self, other: Self) -> (r: Self)
        requires
            self.valid(),
            other.valid(),
            other.unit <= self.unit,
            self.value() + other.value() <= ceiling(),
        ensures
            r.valid(),
            r.value() == rounded(self.value() + other.value()),
    {
        proof {
            lemma_powers_divide(self.unit as nat, other.unit as nat);
        }
        let (b, c) = (self.bits, other.bits);
        let d = self.unit / other.unit;
        let ghost u = other.unit as nat;
        assert((b as nat * d as nat + c as nat) * u == b as nat * (u * d as nat) + c as nat * u) by (nonlinear_arith);
        if d <= 0x1000_0000_0000_0000 {
            assert(b * d <= PRECISION * 0x1000_0000_0000_0000) by (nonlinear_arith)
                requires
                    b <= PRECISION,
                    d <= 0x1000_0000_0000_0000,
            ;
            Double::counted(b * d + c, other.unit)
        } else {
            proof {
                assert(self.unit > 1) by (nonlinear_arith)
                    requires
                        self.unit as nat == u * d as nat,
                        u >= 1,
                        d > 1,
                ;
                lemma_absorbed(b as nat, d as nat, c as nat);
                lemma_scaled(b as nat * d as nat + c as nat, u);
                assert((b as nat * d as nat) * u == b as nat * (u * d as nat)) by (nonlinear_arith);
            }
            self
        }
    }

    /// The whole part of a number that counts 2^54ths, or the most that there is room
    /// for.
    pub fn whole(self) -> (r: u64)
        requires
            self.valid(),
        ensures
            r == if self.value() / 0x40_0000_0000_0000 > u64::MAX {
                u64::MAX as nat
            } else {
                self.value() / 0x40_0000_0000_0000
            },
    {
        let fraction: u128 = 0x40_0000_0000_0000;
        let (b, u) = (self.bits, self.unit);
        let whole: u128 = if u <= fraction {
            assert(b * u <= PRECISION * 0x40_0000_0000_0000) by (nonlinear_arith)
                requires
                    b <= PRECISION,
                    u <= 0x40_0000_0000_0000,
            ;
            b * u / fraction
        } else {
            proof {
                assert(is_power(0x40_0000_0000_0000)) by {
                    reveal_with_fuel(is_power, 55);
                }
                lemma_powers_divide(u as nat, 0x40_0000_0000_0000);
            }
            let e = u / fraction;
            assert(b as nat * u as nat == (b as nat * e as nat) * 0x40_0000_0000_0000) by (nonlinear_arith)
                requires
                    u as nat == 0x40_0000_0000_0000 * e as nat,
            ;
            assert(b as nat * e as nat >= e) by (nonlinear_arith)
                requires
                    b >= 1,
            ;
            if e > u64::MAX as u128 {
                return u64::MAX;
            }
            assert(b * e <= PRECISION * 0xffff_ffff_ffff_ffff) by (nonlinear_arith)
                requires
                    b <= PRECISION,
                    e <= 0xffff_ffff_ffff_ffff,
            ;
            b * e
        };
        if whole > u64::MAX as u128 {
            u64::MAX
        } else {
            whole as u64
        }
    }
}

proof fn lemma_unit_is_small(n: nat, u: nat, unit: nat)
    requires
        n * unit <= ceiling(),
        u == 1 || 2 * n >= u * PRECISION,
        u >= 1,
        unit <= u128::MAX,
    ensures
        u * unit <= u128::MAX,
{
    if u == 1 {
        assert(u * unit == unit) by (nonlinear_arith)
            requires
                u == 1,
        ;
    } else {
        assert(2 * (n * unit) >= (u * unit) * PRECISION) by (nonlinear_arith)
            requires
                2 * n >= u * PRECISION,
        ;
    }
}

/// What is added far below the last significant bit is rounded away.
proof fn lemma_absorbed(b: nat, d: nat, c: nat)
    requires
        is_power(d),
        d > 0x1000_0000_0000_0000,
        b <= PRECISION,
        2 * b >= PRECISION,
        c <= PRECISION,
    ensures
        rounded(b * d + c) == b * d,
{
    let n = b * d + c;
    if b < PRECISION {
        assert(n < d * PRECISION) by (nonlinear_arith)
            requires
                n == b * d + c,
                b + 1 <= PRECISION,
                c <= PRECISION,
                d > 0x1000_0000_0000_0000,
                PRECISION == 9007199254740992,
        ;
        assert(2 * n >= d * PRECISION) by (nonlinear_arith)
            requires
                n == b * d + c,
                2 * b >= PRECISION,
        ;
        lemma_spacing_is(n, d);
        vstd::arithmetic::div_mod::lemma_fundamental_div_mod_converse(n as int, d as int, b as int, c as int);
    } else {
        let u = 2 * d;
        let half: nat = 4503599627370496;
        assert(is_power(u)) by {
            assert(u / 2 == d);
        }
        assert(n == half * u + c) by (nonlinear_arith)
            requires
                n == b * d + c,
                b == 2 * half,
                u == 2 * d,
        ;
        assert(n < u * PRECISION) by (nonlinear_arith)
            requires
                n == half * u + c,
                half == 4503599627370496,
                c <= PRECISION,
                u > 0x1000_0000_0000_0000,
                PRECISION == 9007199254740992,
        ;
        assert(2 * n >= u * PRECISION) by (nonlinear_arith)
            requires
                n == half * u + c,
                2 * half == PRECISION,
        ;
        lemma_spacing_is(n, u);
        vstd::arithmetic::div_mod::lemma_fundamental_div_mod_converse(n as int, u as int, half as int, c as int);
    }
}

} // verus!
