//! Quantized element types: the integers that an 8-bit tensor element stands for.
use vstd::prelude::*;

verus! {

/// An 8-bit quantized tensor element (`i8` or `u8`).
pub trait Quantized: Copy + Sized {
    /// The integer that the element stands for.
    spec fn value(self) -> int;

    /// Every quantized element lies between the least `i8` and the greatest `u8`.
    proof fn lemma_value_range(x: Self)
        ensures
            -128 <= x.value() <= 255,
    ;

    /// The largest magnitude of an element's value: 128 for `i8`, 255 for `u8`.
    spec fn magnitude() -> int;

    /// Every element's value lies within the type's magnitude, which is between 1 and 255.
    proof fn lemma_value_magnitude(x: Self)
        ensures
            -Self::magnitude() <= x.value() <= Self::magnitude(),
            1 <= Self::magnitude() <= 255,
    ;

    /// The type's magnitude.
    fn max_magnitude() -> (m: i32)
        ensures
            m == Self::magnitude(),
    ;

    /// Two elements that stand for the same integer are the same element.
    proof fn lemma_value_injective(x: Self, y: Self)
        ensures
            x.value() == y.value() ==> x == y,
    ;

    /// Widens the element to `i32` without loss.
    fn to_i32(self) -> (r: i32)
        ensures
            r == self.value(),
    ;
}

impl Quantized for i8 {
    open spec fn value(self) -> int {
        self as int
    }

    open spec fn magnitude() -> int {
        128
    }

    proof fn lemma_value_magnitude(x: i8) {
    }

    fn max_magnitude() -> (m: i32) {
        128
    }

    proof fn lemma_value_range(x: i8) {
    }

    proof fn lemma_value_injective(x: i8, y: i8) {
    }

    fn to_i32(self) -> (r: i32) {
        self as i32
    }
}

impl Quantized for u8 {
    open spec fn value(self) -> int {
        self as int
    }

    open spec fn magnitude() -> int {
        255
    }

    proof fn lemma_value_magnitude(x: u8) {
    }

    fn max_magnitude() -> (m: i32) {
        255
    }

    proof fn lemma_value_range(x: u8) {
    }

    proof fn lemma_value_injective(x: u8, y: u8) {
    }

    fn to_i32(self) -> (r: i32) {
        self as i32
    }
}

/// The larger of two elements, the second one on a tie (as `Ord::max` picks).
pub open spec fn spec_max<T: Quantized>(a: T, b: T) -> T {
    if a.value() > b.value() {
        a
    } else {
        b
    }
}

/// The smaller of two elements, the first one on a tie (as `Ord::min` picks).
pub open spec fn spec_min<T: Quantized>(a: T, b: T) -> T {
    if a.value() <= b.value() {
        a
    } else {
        b
    }
}

/// The larger of two elements.
pub fn max<T: Quantized>(a: T, b: T) -> (r: T)
    ensures
        r == spec_max(a, b),
{
    if a.to_i32() > b.to_i32() {
        a
    } else {
        b
    }
}

/// The smaller of two elements.
pub fn min<T: Quantized>(a: T, b: T) -> (r: T)
    ensures
        r == spec_min(a, b),
{
    if a.to_i32() <= b.to_i32() {
        a
    } else {
        b
    }
}

} // verus!
