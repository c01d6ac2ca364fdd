//! Whole numbers of up to 256 bits, for the numerator and the denominator of
//! an estimate, which outgrow the machine's integers.
use vstd::prelude::*;

verus! {

/// Two to the power of 64.
pub open spec fn half() -> int {
    0x1_0000_0000_0000_0000
}

/// Two to the power of 128.
pub open spec fn radix() -> int {
    half() * half()
}

/// The whole number `high * 2^128 + low`.
#[derive(Clone, Copy, Debug)]
pub struct Wide {
    pub high: u128,
    pub low: u128,
}

impl View for Wide {
    type V = int;

    open spec fn view(&self) -> int {
        self.high * radix() + self.low
    }
}

/// The sum of two machine integers, as its low 128 bits and what is carried
/// over them.
fn carrying(x: u128, y: u128) -> (r: (u128, u128))
    ensures
        r.0 + r.1 * radix() == x + y,
        r.1 <= 1,
{
    if x > u128::MAX - y {
        (x - (u128::MAX - y) - 1, 1)
    } else {
        (x + y, 0)
    }
}

/// `x * 2^64 + y`, for less than 65 bits of `x` over 64, as a wide number.
fn shifted(x: u128, y: u128) -> (r: Wide)
    requires
        x <= 0xffff_ffff_ffff_ffff_ffff_ffff_ffff,
    ensures
        r@ == x * half() + y,
        r.high <= 0x1_0000_0000_0000,
{
    let top: u128 = x / 0x1_0000_0000_0000_0000;
    let rest: u128 = x % 0x1_0000_0000_0000_0000;
    let (low, carry) = carrying(rest * 0x1_0000_0000_0000_0000, y);
    assert((top + carry) * radix() + low == x * half() + y) by (nonlinear_arith)
        requires
            x == top * half() + rest,
            low + carry * radix() == rest * half() + y,
            radix() == half() * half(),
    ;
    Wide { high: top + carry, low }
}

impl Wide {
    /// The wide number of a machine integer.
    pub(crate) fn from_u128(x: u128) -> (r: Wide)
        ensures
            r@ == x,
            r.high == 0,
    {
        Wide { high: 0, low: x }
    }

    /// The product of two numbers of at most 97 bits.
    pub(crate) fn product(a: u128, b: u128) -> (r: Wide)
        requires
            a <= 0x2_0000_0000_0000_0000_0000_0000,
            b <= 0x2_0000_0000_0000_0000_0000_0000,
        ensures
            r@ == a * b,
            r.high <= 0x4_0001_0000_0000_0000,
    {
        let a1: u128 = a / 0x1_0000_0000_0000_0000;
        let a0: u128 = a % 0x1_0000_0000_0000_0000;
        let b1: u128 = b / 0x1_0000_0000_0000_0000;
        let b0: u128 = b % 0x1_0000_0000_0000_0000;
        assert(a0 * b0 <= 0xffff_ffff_ffff_ffff * 0xffff_ffff_ffff_ffff && a0 * b1
            <= 0xffff_ffff_ffff_ffff * 0x2_0000_0000 && a1 * b0 <= 0x2_0000_0000
            * 0xffff_ffff_ffff_ffff && a1 * b1 <= 0x2_0000_0000 * 0x2_0000_0000)
            by (nonlinear_arith)
            requires
                a0 <= 0xffff_ffff_ffff_ffff,
                b0 <= 0xffff_ffff_ffff_ffff,
                a1 <= 0x2_0000_0000,
                b1 <= 0x2_0000_0000,
        ;
        let middle: u128 = a0 * b1 + a1 * b0;
        let lower: Wide = shifted(middle, a0 * b0);
        assert(a * b == (a1 * b1) * radix() + (a0 * b1 + a1 * b0) * half() + a0 * b0)
            by (nonlinear_arith)
            requires
                a == a1 * half() + a0,
                b == b1 * half() + b0,
                radix() == half() * half(),
        ;
        assert((a1 * b1 + lower.high) * radix() + lower.low == (a1 * b1) * radix() + (
        lower.high * radix() + lower.low)) by (nonlinear_arith);
        Wide { high: a1 * b1 + lower.high, low: lower.low }
    }

    /// The wide number times a number of at most 34 bits.
    pub(crate) fn times(self, k: u64) -> (r: Wide)
        requires
            self.high <= 0x8_0002_0000_0000_0000,
            k <= 0x2_0000_0000,
        ensures
            r@ == self@ * k,
            r.high <= 0x10_0004_0001_0000_0000_0000_0000,
    {
        let l1: u128 = self.low / 0x1_0000_0000_0000_0000;
        let l0: u128 = self.low % 0x1_0000_0000_0000_0000;
        assert(l0 * k <= 0xffff_ffff_ffff_ffff * 0x2_0000_0000 && l1 * k <= 0xffff_ffff_ffff_ffff
            * 0x2_0000_0000 && self.high * k <= 0x8_0002_0000_0000_0000 * 0x2_0000_0000)
            by (nonlinear_arith)
            requires
                l0 <= 0xffff_ffff_ffff_ffff,
                l1 <= 0xffff_ffff_ffff_ffff,
                self.high <= 0x8_0002_0000_0000_0000,
                k <= 0x2_0000_0000,
        ;
        let lower: Wide = shifted(l1 * (k as u128), l0 * (k as u128));
        assert((self.high * radix() + self.low) * k == (self.high * k) * radix() + (l1 * k)
            * half() + l0 * k) by (nonlinear_arith)
            requires
                self.low == l1 * half() + l0,
        ;
        assert(self.low == l1 * half() + l0);
        assert((self.high * k + lower.high) * radix() + lower.low == (self.high * k) * radix()
            + (lower.high * radix() + lower.low)) by (nonlinear_arith);
        Wide { high: self.high * (k as u128) + lower.high, low: lower.low }
    }

    /// The sum of two wide numbers.
    pub(crate) fn plus(self, other: Wide) -> (r: Wide)
        requires
            self.high + other.high < u128::MAX,
        ensures
            r@ == self@ + other@,
            r.high <= self.high + other.high + 1,
    {
        let (low, carry) = carrying(self.low, other.low);
        assert((self.high + other.high + carry) * radix() == self.high * radix() + other.high
            * radix() + carry * radix()) by (nonlinear_arith);
        Wide { high: self.high + other.high + carry, low }
    }
}

} // verus!
