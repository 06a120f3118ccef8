//! Numbers in double precision that may be negative.

#[allow(unused_imports)]
use vstd::arithmetic::power2::pow2;
use vstd::prelude::*;

use crate::double::Double;
#[allow(unused_imports)]
use crate::double::{double_of, lemma_double_of_units};
#[allow(unused_imports)]
use crate::rounding::{
    law_rounding_keeps_order, lemma_rounded_at_most, lemma_rounded_exact, one, product, quotient,
    rounded,
};

verus! {

/// A number in double precision.
#[derive(Clone, Copy, Debug, PartialEq, Eq, Structural)]
pub struct Signed {
    pub negative: bool,
    pub size: Double,
}

/// How far a number is from zero.
pub open spec fn size_of(units: int) -> nat {
    if units < 0 {
        (-units) as nat
    } else {
        units as nat
    }
}

/// So many units on the side of zero on which `side` is.
pub open spec fn on_side_of(side: int, size: nat) -> int {
    if side < 0 {
        -size
    } else {
        size as int
    }
}

/// The number that consists of so many units.
pub open spec fn signed_of(units: int) -> Signed {
    Signed { negative: units < 0, size: double_of(size_of(units)) }
}

/// A whole number of units, rounded to double precision.
pub open spec fn signed_rounded(units: int) -> int {
    on_side_of(units, rounded(size_of(units), 1))
}

/// The sum of two numbers, in units.
pub open spec fn signed_sum(a: int, b: int) -> int {
    signed_rounded(a + b)
}

/// The difference of two numbers, in units.
pub open spec fn signed_difference(a: int, b: int) -> int {
    signed_rounded(a - b)
}

/// The product of two numbers, in units.
pub open spec fn signed_product(a: int, b: nat) -> int {
    on_side_of(a, product(size_of(a), b))
}

/// The quotient of two numbers, in units.
pub open spec fn signed_quotient(a: int, b: nat) -> int {
    on_side_of(a, quotient(size_of(a), b))
}

impl Signed {
    /// The number, in units.
    pub open spec fn units(self) -> int {
        if self.negative {
            -self.size.units()
        } else {
            self.size.units() as int
        }
    }

    /// There is only one way to write each number. Zero is not negative.
    pub open spec fn wf(self) -> bool {
        &&& self.size.wf()
        &&& self.negative ==> self.size.mant > 0
    }
}

/// A number that can be written can be written in one way only.
pub proof fn lemma_signed_of_units(d: Signed)
    requires
        d.wf(),
    ensures
        signed_of(d.units()) == d,
        size_of(d.units()) == d.size.units(),
        d.units() < 0 <==> d.negative,
{
    lemma_double_of_units(d.size);
    vstd::arithmetic::power2::lemma_pow2_pos(d.size.shift as nat);
    let mant = d.size.mant as nat;
    let power = pow2(d.size.shift as nat);
    if mant > 0 {
        assert(mant * power > 0) by (nonlinear_arith)
            requires
                mant > 0,
                power > 0,
        ;
    }
}

/// A greater number is not rounded to a lesser one.
pub proof fn law_signed_rounding_keeps_order(x: int, y: int)
    requires
        x <= y,
    ensures
        signed_rounded(x) <= signed_rounded(y),
{
    if x >= 0 {
        law_rounding_keeps_order(x as nat, y as nat, 1);
    } else if y < 0 {
        law_rounding_keeps_order((-y) as nat, (-x) as nat, 1);
    }
}

/// Rounding leaves a number that double precision has as it is.
pub proof fn law_signed_rounding_settles(d: Signed)
    requires
        d.wf(),
    ensures
        signed_rounded(d.units()) == d.units(),
{
    lemma_signed_of_units(d);
    lemma_rounded_exact(d.size.mant as nat, d.size.shift as nat, 1);
}

impl Signed {
    /// A number that is not negative.
    pub fn of(size: Double) -> (d: Signed)
        requires
            size.wf(),
        ensures
            d.wf(),
            d.units() == size.units(),
            d.size == size,
            d == (Signed { negative: false, size }),
    {
        Signed { negative: false, size }
    }

    /// A number of some size, negative if told so and if it is not zero.
    fn of_size(negative: bool, size: Double) -> (d: Signed)
        requires
            size.wf(),
        ensures
            d.wf(),
            d.size == size,
            d.units() == on_side_of(
                if negative {
                    -1
                } else {
                    0
                },
                size.units(),
            ),
    {
        assert(size.mant == 0 ==> size.units() == 0) by {
            assert(0 * pow2(size.shift as nat) == 0);
        }
        Signed { negative: negative && size.mant > 0, size }
    }

    /// The sum of two numbers.
    pub fn plus(self, other: Signed) -> (d: Signed)
        requires
            self.wf(),
            other.wf(),
            self.size.shift <= 4_000,
            other.size.shift <= 4_000,
        ensures
            d.wf(),
            d.units() == signed_sum(self.units(), other.units()),
            d == signed_of(signed_sum(self.units(), other.units())),
            d.size.shift <= self.size.shift + 2 || d.size.shift <= other.size.shift + 2,
    {
        proof {
            lemma_signed_of_units(self);
            lemma_signed_of_units(other);
        }
        let d: Signed = if self.negative == other.negative {
            Signed::of_size(self.negative, self.size.plus(other.size))
        } else if other.size.at_most(self.size) {
            Signed::of_size(self.negative, self.size.minus(other.size))
        } else {
            Signed::of_size(other.negative, other.size.minus(self.size))
        };
        proof {
            lemma_signed_of_units(d);
            lemma_nothing_rounds_to_nothing();
        }
        d
    }

    /// The number on the other side of zero.
    pub fn negated(self) -> (d: Signed)
        requires
            self.wf(),
        ensures
            d.wf(),
            d.units() == -self.units(),
            d.size == self.size,
    {
        proof {
            lemma_signed_of_units(self);
        }
        Signed::of_size(!self.negative, self.size)
    }

    /// The difference of two numbers.
    pub fn minus(self, other: Signed) -> (d: Signed)
        requires
            self.wf(),
            other.wf(),
            self.size.shift <= 4_000,
            other.size.shift <= 4_000,
        ensures
            d.wf(),
            d.units() == signed_difference(self.units(), other.units()),
            d == signed_of(signed_difference(self.units(), other.units())),
            d.size.shift <= self.size.shift + 2 || d.size.shift <= other.size.shift + 2,
    {
        self.plus(other.negated())
    }

    /// The product of two numbers.
    pub fn times(self, other: Double) -> (d: Signed)
        requires
            self.wf(),
            other.wf(),
            self.size.shift <= 4_000,
            other.shift <= 4_000,
        ensures
            d.wf(),
            d.units() == signed_product(self.units(), other.units()),
            other.units() <= pow2(4) * one() ==> d.size.shift <= self.size.shift + 5,
    {
        proof {
            lemma_signed_of_units(self);
        }
        Signed::of_size(self.negative, self.size.times(other))
    }

    /// The quotient of two numbers of which the second is at least one.
    pub fn over(self, other: Double) -> (d: Signed)
        requires
            self.wf(),
            other.wf(),
            one() <= other.units(),
            self.size.shift <= 4_000,
            other.shift <= 2_000,
        ensures
            d.wf(),
            d.units() == signed_quotient(self.units(), other.units()),
            d.size.shift <= self.size.shift,
    {
        proof {
            lemma_signed_of_units(self);
        }
        Signed::of_size(self.negative, self.size.over(other))
    }

    /// The first number is less than the second.
    pub fn less_than(self, other: Signed) -> (result: bool)
        requires
            self.wf(),
            other.wf(),
        ensures
            result == (self.units() < other.units()),
    {
        proof {
            lemma_signed_of_units(self);
            lemma_signed_of_units(other);
        }
        if self.negative != other.negative {
            self.negative
        } else if self.negative {
            !self.size.at_most(other.size)
        } else {
            !other.size.at_most(self.size)
        }
    }
}

proof fn lemma_nothing_rounds_to_nothing()
    ensures
        rounded(0, 1) == 0,
{
    assert(0 * pow2(0) * 1 == 0);
    lemma_rounded_at_most(0, 1, 0, 0);
}

}
