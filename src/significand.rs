use vstd::prelude::*;

use crate::sign::Sign;

verus! {

/// `10` raised to the power `exp`.
pub open spec fn pow10(exp: nat) -> int
    decreases exp,
{
    if exp == 0 {
        1
    } else {
        10 * pow10((exp - 1) as nat)
    }
}

/// Powers of ten are positive and grow with the exponent.
pub proof fn lemma_pow10_grows(a: nat, b: nat)
    requires
        a <= b,
    ensures
        1 <= pow10(a) <= pow10(b),
    decreases b,
{
    if b > a {
        lemma_pow10_grows(a, (b - 1) as nat);
    } else if a > 0 {
        lemma_pow10_grows((a - 1) as nat, (a - 1) as nat);
    }
}

/// Whether `c` is one of the characters `0` to `9`.
pub open spec fn is_digit(c: char) -> bool {
    '0' <= c && c <= '9'
}

/// The magnitude `0` to `9` of a digit character.
pub open spec fn digit_value(c: char) -> int {
    c as int - '0' as int
}

/// `x × 10^exp`, plus the digit's magnitude when `sign` is positive, minus it when negative.
pub open spec fn appended(x: int, exp: nat, digit: char, sign: Sign) -> int {
    match sign {
        Sign::Positive => x * pow10(exp) + digit_value(digit),
        Sign::Negative => x * pow10(exp) - digit_value(digit),
    }
}

/// A bounded signed integer that can hold the significand of a [`Decimal`] number.
///
/// Every operation is checked: where the exact result does not fit, it is `None`, never a value
/// that wrapped around.
///
/// [`Decimal`]: crate::Decimal
pub trait Significand: Sized + Copy {
    /// The integer that the value stands for.
    spec fn value(&self) -> int;

    /// Whether the integer `n` can be held.
    spec fn fits(n: int) -> bool;

    /// The integers that can be held form a range around zero.
    proof fn lemma_fits_between(n: int, m: int)
        requires
            Self::fits(n),
            0 <= m <= n || n <= m <= 0,
        ensures
            Self::fits(m),
    ;

    /// Zero can be held.
    proof fn lemma_zero_fits()
        ensures
            Self::fits(0),
    ;

    /// Zero, the value a significand starts from.
    fn zero() -> (r: Self)
        ensures
            r.value() == 0,
    ;

    /// Returns `true` if the number is zero.
    fn is_zero(&self) -> (r: bool)
        ensures
            r == (self.value() == 0),
    ;

    /// Checked multiplication by a power of ten: `self × 10^exp`, or `None` where that does not
    /// fit.
    fn checked_shl10(self, exp: u32) -> (r: Option<Self>)
        ensures
            r is Some <==> Self::fits(self.value() * pow10(exp as nat)),
            r matches Some(v) ==> v.value() == self.value() * pow10(exp as nat),
    ;

    /// Checked addition of an unsigned integer: `self + rhs`, or `None` where that does not fit.
    fn checked_add_unsigned(self, rhs: u32) -> (r: Option<Self>)
        ensures
            r is Some <==> Self::fits(self.value() + rhs),
            r matches Some(v) ==> v.value() == self.value() + rhs,
    ;

    /// Checked subtraction of an unsigned integer: `self - rhs`, or `None` where that does not
    /// fit.
    fn checked_sub_unsigned(self, rhs: u32) -> (r: Option<Self>)
        ensures
            r is Some <==> Self::fits(self.value() - rhs),
            r matches Some(v) ==> v.value() == self.value() - rhs,
    ;
}

impl Significand for i32 {
    open spec fn value(&self) -> int {
        *self as int
    }

    open spec fn fits(n: int) -> bool {
        i32::MIN <= n <= i32::MAX
    }

    proof fn lemma_fits_between(n: int, m: int) {
    }

    proof fn lemma_zero_fits() {
    }

    fn zero() -> (r: i32) {
        0
    }

    fn is_zero(&self) -> (r: bool) {
        0 == *self
    }

    fn checked_shl10(self, exp: u32) -> (r: Option<i32>) {
        if self == 0 {
            proof {
                assert(0 * pow10(exp as nat) == 0);
            }
            return Some(0);
        }
        let mut acc: i32 = self;
        let mut i: u32 = 0;
        while i < exp
            invariant
                self != 0,
                i <= exp,
                acc as int == self as int * pow10(i as nat),
            decreases exp - i,
        {
            match acc.checked_mul(10) {
                Some(next) => {
                    acc = next;
                    i = i + 1;
                    proof {
                        assert(self as int * pow10(i as nat) == (self as int * pow10((i - 1) as nat))
                            * 10) by (nonlinear_arith)
                            requires
                                pow10(i as nat) == 10 * pow10((i - 1) as nat),
                        ;
                    }
                },
                None => {
                    proof {
                        let p = pow10((i + 1) as nat);
                        let q = pow10(exp as nat);
                        lemma_pow10_grows((i + 1) as nat, exp as nat);
                        assert(p == pow10(i as nat) * 10);
                        let x = self as int;
                        assert(x * p == acc as int * 10) by (nonlinear_arith)
                            requires
                                p == pow10(i as nat) * 10,
                                acc as int == x * pow10(i as nat),
                        ;
                        assert(x * q > i32::MAX || x * q < i32::MIN) by (nonlinear_arith)
                            requires
                                x != 0,
                                1 <= p <= q,
                                x * p > i32::MAX || x * p < i32::MIN,
                        ;
                    }
                    return None;
                },
            }
        }
        Some(acc)
    }

    fn checked_add_unsigned(self, rhs: u32) -> (r: Option<i32>) {
        <i32>::checked_add_unsigned(self, rhs)
    }

    fn checked_sub_unsigned(self, rhs: u32) -> (r: Option<i32>) {
        <i32>::checked_sub_unsigned(self, rhs)
    }
}

/// An `i32` significand that multiplies by ten with shifts and an addition,
/// `(x << 3) + (x << 1)`, instead of a multiplication.
///
/// It behaves exactly as `i32` does; it is for processors where detecting the overflow of a
/// multiplication is expensive.
#[derive(Clone, Copy, Debug, PartialEq, Eq)]
pub struct ShiftedI32(pub i32);

/// `x × 10` by shifts, or `None` where that does not fit an `i32`.
fn checked_times_ten_by_shifts(x: i32) -> (r: Option<i32>)
    ensures
        r is Some <==> i32::MIN <= x * 10 <= i32::MAX,
        r matches Some(v) ==> v == x * 10,
{
    if x < -268435456 || 268435456 <= x {
        return None;
    }
    let x8 = x << 3u32;
    let x2 = x << 1u32;
    assert(x8 == x * 8 && x2 == x * 2) by (bit_vector)
        requires
            -268435456 <= x < 268435456,
            x8 == x << 3u32,
            x2 == x << 1u32,
    ;
    x8.checked_add(x2)
}

impl Significand for ShiftedI32 {
    open spec fn value(&self) -> int {
        self.0 as int
    }

    open spec fn fits(n: int) -> bool {
        i32::MIN <= n <= i32::MAX
    }

    proof fn lemma_fits_between(n: int, m: int) {
    }

    proof fn lemma_zero_fits() {
    }

    fn zero() -> (r: ShiftedI32) {
        ShiftedI32(0)
    }

    fn is_zero(&self) -> (r: bool) {
        0 == self.0
    }

    fn checked_shl10(self, exp: u32) -> (r: Option<ShiftedI32>) {
        let x = self.0;
        if x == 0 {
            proof {
                assert(0 * pow10(exp as nat) == 0);
            }
            return Some(ShiftedI32(0));
        }
        let mut acc: i32 = x;
        let mut i: u32 = 0;
        while i < exp
            invariant
                x == self.0,
                x != 0,
                i <= exp,
                acc as int == x as int * pow10(i as nat),
            decreases exp - i,
        {
            match checked_times_ten_by_shifts(acc) {
                Some(next) => {
                    acc = next;
                    i = i + 1;
                    proof {
                        assert(x as int * pow10(i as nat) == (x as int * pow10((i - 1) as nat)) * 10)
                            by (nonlinear_arith)
                            requires
                                pow10(i as nat) == 10 * pow10((i - 1) as nat),
                        ;
                    }
                },
                None => {
                    proof {
                        assert(acc as int * 10 > i32::MAX || acc as int * 10 < i32::MIN);
                        let p = pow10((i + 1) as nat);
                        let q = pow10(exp as nat);
                        lemma_pow10_grows((i + 1) as nat, exp as nat);
                        assert(p == pow10(i as nat) * 10);
                        let v = x as int;
                        assert(v * p == acc as int * 10) by (nonlinear_arith)
                            requires
                                p == pow10(i as nat) * 10,
                                acc as int == v * pow10(i as nat),
                        ;
                        assert(v * q > i32::MAX || v * q < i32::MIN) by (nonlinear_arith)
                            requires
                                v != 0,
                                1 <= p <= q,
                                v * p > i32::MAX || v * p < i32::MIN,
                        ;
                    }
                    return None;
                },
            }
        }
        Some(ShiftedI32(acc))
    }

    fn checked_add_unsigned(self, rhs: u32) -> (r: Option<ShiftedI32>) {
        match <i32>::checked_add_unsigned(self.0, rhs) {
            Some(v) => Some(ShiftedI32(v)),
            None => None,
        }
    }

    fn checked_sub_unsigned(self, rhs: u32) -> (r: Option<ShiftedI32>) {
        match <i32>::checked_sub_unsigned(self.0, rhs) {
            Some(v) => Some(ShiftedI32(v)),
            None => None,
        }
    }
}

/// Appending a digit to a significand.
pub trait SignificandExt: Significand {
    /// Computes `self × 10^exp` and then adds the digit's magnitude (for a positive `sign`) or
    /// subtracts it (for a negative one). `None` where `digit` is not `0` to `9`, or where a step
    /// does not fit.
    fn checked_append_digit(&self, exp: u32, digit: char, sign: Sign) -> (r: Option<Self>)
        ensures
            r is Some <==> is_digit(digit) && Self::fits(self.value() * pow10(exp as nat))
                && Self::fits(appended(self.value(), exp as nat, digit, sign)),
            r matches Some(v) ==> v.value() == appended(self.value(), exp as nat, digit, sign),
    ;
}

impl<S: Significand> SignificandExt for S {
    fn checked_append_digit(&self, exp: u32, digit: char, sign: Sign) -> (r: Option<Self>) {
        if digit < '0' || '9' < digit {
            return None;
        }
        let magnitude: u32 = digit as u32 - '0' as u32;
        match self.checked_shl10(exp) {
            None => None,
            Some(significand) => match sign {
                Sign::Positive => significand.checked_add_unsigned(magnitude),
                Sign::Negative => significand.checked_sub_unsigned(magnitude),
            },
        }
    }
}

} // verus!
