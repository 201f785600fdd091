//! Exact decimal amounts: prices, sizes and profits, held in millionths.

use vstd::prelude::*;

verus! {

/// How many millionths make one whole unit.
pub const SCALE: i64 = 1_000_000;

/// The nearest value to `x` that an amount can hold.
pub open spec fn clamp(x: int) -> int {
    if x < i64::MIN {
        i64::MIN as int
    } else if x > i64::MAX {
        i64::MAX as int
    } else {
        x
    }
}

/// The quotient of `a` by a positive `b`, rounded toward zero.
pub open spec fn div_toward_zero(a: int, b: int) -> int {
    if a >= 0 {
        a / b
    } else {
        -((-a) / b)
    }
}

/// A signed decimal number with six fractional digits.
///
/// Arithmetic is exact as long as the result can be held and saturates at
/// the ends of the range otherwise.
#[derive(Clone, Copy, Debug, PartialEq, Eq, Structural)]
pub struct Amount {
    /// The number in millionths of a unit.
    pub micros: i64,
}

proof fn lemma_product_bound(a: int, b: int, ka: int, kb: int)
    requires
        0 <= a <= ka,
        0 <= b <= kb,
    ensures
        0 <= a * b <= ka * kb,
{
    assert(0 <= a * b) by (nonlinear_arith)
        requires
            0 <= a,
            0 <= b,
    ;
    assert(a * b <= ka * kb) by (nonlinear_arith)
        requires
            0 <= a <= ka,
            0 <= b <= kb,
    ;
}

proof fn lemma_signed_product(a: int, b: int)
    ensures
        (-a) * b == -(a * b),
        a * (-b) == -(a * b),
        (-a) * (-b) == a * b,
{
    assert((-a) * b == -(a * b)) by (nonlinear_arith);
    assert(a * (-b) == -(a * b)) by (nonlinear_arith);
    assert((-a) * (-b) == a * b) by (nonlinear_arith);
}

/// The distance of `x` from zero.
pub open spec fn magnitude_of(x: int) -> nat {
    if x < 0 {
        (-x) as nat
    } else {
        x as nat
    }
}

/// The distance of `x` from zero.
pub fn magnitude(x: i64) -> (m: u128)
    ensures
        m == magnitude_of(x as int),
        m <= 0x8000_0000_0000_0000,
{
    if x < 0 {
        let wide: i128 = x as i128;
        (0 - wide) as u128
    } else {
        x as u128
    }
}

/// The exact product of a number of millionths and a count.
pub fn wide_product(a: i64, b: i32) -> (p: i128)
    ensures
        p == a * b,
        -0x4000_0000_0000_0000_0000_0000 <= p <= 0x4000_0000_0000_0000_0000_0000,
{
    let ma: u128 = magnitude(a);
    let mb: u128 = magnitude(b as i64);
    proof {
        lemma_product_bound(ma as int, mb as int, 0x8000_0000_0000_0000, 0x8000_0000);
        lemma_signed_product(a as int, b as int);
        assert(0x8000_0000_0000_0000int * 0x8000_0000int == 0x4000_0000_0000_0000_0000_0000int)
            by (nonlinear_arith);
    }
    let product: u128 = ma * mb;
    if (a < 0) != (b < 0) {
        0 - (product as i128)
    } else {
        product as i128
    }
}

/// The amount nearest to `x` millionths.
pub fn saturate(x: i128) -> (r: Amount)
    ensures
        r.micros == clamp(x as int),
{
    if x < i64::MIN as i128 {
        Amount { micros: i64::MIN }
    } else if x > i64::MAX as i128 {
        Amount { micros: i64::MAX }
    } else {
        Amount { micros: x as i64 }
    }
}

/// `a * b / d` rounded toward zero and saturated.
fn scaled_product(a: i64, b: i64, d: i64) -> (r: Amount)
    requires
        d > 0,
    ensures
        r.micros == clamp(div_toward_zero(a as int * b as int, d as int)),
{
    let ma: u128 = magnitude(a);
    let mb: u128 = magnitude(b);
    proof {
        lemma_product_bound(ma as int, mb as int, 0x8000_0000_0000_0000, 0x8000_0000_0000_0000);
        lemma_signed_product(a as int, b as int);
        assert(0x8000_0000_0000_0000int * 0x8000_0000_0000_0000int
            == 0x4000_0000_0000_0000_0000_0000_0000_0000int) by (nonlinear_arith);
    }
    let product: u128 = ma * mb;
    let quotient: u128 = product / (d as u128);
    assert(quotient <= product) by (nonlinear_arith)
        requires
            quotient == product / (d as u128),
            d > 0,
    ;
    let negative: bool = (a < 0) != (b < 0);
    if negative {
        assert(a as int * b as int == -(product as int));
        assert(product == 0 ==> quotient == 0);
        saturate(0 - (quotient as i128))
    } else {
        assert(a as int * b as int == product as int);
        saturate(quotient as i128)
    }
}

impl Amount {
    /// The amount zero.
    pub fn zero() -> (r: Amount)
        ensures
            r.micros == 0,
    {
        Amount { micros: 0 }
    }

    /// The amount of `micros` millionths.
    pub fn from_micros(micros: i64) -> (r: Amount)
        ensures
            r.micros == micros,
    {
        Amount { micros }
    }

    /// The amount of `units` whole units.
    pub fn from_units(units: i64) -> (r: Amount)
        ensures
            r.micros == clamp(units * SCALE),
    {
        let r = scaled_product(units, SCALE, 1);
        assert(div_toward_zero(units as int * SCALE as int, 1) == units * SCALE);
        r
    }

    /// The sum of two amounts.
    pub fn plus(self, other: Amount) -> (r: Amount)
        ensures
            r.micros == clamp(self.micros + other.micros),
    {
        saturate(self.micros as i128 + other.micros as i128)
    }

    /// The difference of two amounts.
    pub fn minus(self, other: Amount) -> (r: Amount)
        ensures
            r.micros == clamp(self.micros - other.micros),
    {
        saturate(self.micros as i128 - other.micros as i128)
    }

    /// The amount taken `count` times.
    pub fn times_count(self, count: i32) -> (r: Amount)
        ensures
            r.micros == clamp(self.micros * count),
    {
        let r = scaled_product(self.micros, count as i64, 1);
        assert(div_toward_zero(self.micros as int * count as int, 1) == self.micros * count);
        r
    }

    /// The product of two amounts, rounded toward zero.
    pub fn times(self, other: Amount) -> (r: Amount)
        ensures
            r.micros == clamp(div_toward_zero(self.micros * other.micros, SCALE as int)),
    {
        scaled_product(self.micros, other.micros, SCALE)
    }

    /// One of `parts` equal shares of the amount, rounded toward zero.
    pub fn shared_among(self, parts: u32) -> (r: Amount)
        requires
            parts > 0,
        ensures
            r.micros == div_toward_zero(self.micros as int, parts as int),
    {
        let r = scaled_product(self.micros, 1, parts as i64);
        assert(self.micros as int * 1 == self.micros);
        r
    }

    /// The amount multiplied by `numerator / denominator`, rounded toward
    /// zero once, after the multiplication.
    pub fn times_ratio(self, numerator: Amount, denominator: Amount) -> (r: Amount)
        requires
            denominator.micros > 0,
        ensures
            r.micros == clamp(
                div_toward_zero(self.micros * numerator.micros, denominator.micros as int),
            ),
    {
        scaled_product(self.micros, numerator.micros, denominator.micros)
    }
}

} // verus!
