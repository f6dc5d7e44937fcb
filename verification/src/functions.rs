//! The functions of the mathematical library.
//!
//! Curves, levels and spectra rest on functions such as a hyperbolic tangent or
//! a logarithm. The caller supplies them as one function of the name and the
//! argument; what is said here holds whatever that function gives.

use vstd::prelude::*;
use crate::single::Bits;

verus! {

/// A function of the mathematical library.
#[derive(Clone, Copy, PartialEq, Eq, Debug, Structural)]
pub enum Function {
    /// No function at all: its value is zero.
    Unneeded,
    Tanh,
    SquareRoot,
    Atan,
    Sin,
    Cos,
    Exp,
    /// The power of two.
    TwoTo,
    /// The power of ten.
    TenTo,
    /// The power with the exponent one and a half.
    ThreeHalves,
    /// The power with the exponent six tenths.
    SixTenths,
    /// The power of one and a quarter.
    FiveFourthsTo,
    /// The logarithm to base two.
    Log2,
    /// The logarithm to base ten.
    Log10,
    /// The modified Bessel function of the first kind, of order zero.
    Bessel,
}

/// A supplied mathematical library has a value for every function and argument.
pub open spec fn is_total<M: Fn(Function, Bits) -> Bits>(m: &M) -> bool {
    forall|f: Function, x: Bits| #[trigger] call_requires(*m, (f, x))
}

/// The library may give `y` for a function at `x`.
pub open spec fn gives<M: Fn(Function, Bits) -> Bits>(m: &M, f: Function, x: Bits, y: Bits) -> bool {
    if f is Unneeded {
        y == 0
    } else {
        call_ensures(*m, (f, x), y)
    }
}

/// The library gives one value only for a function and an argument.
pub open spec fn is_single_valued<M: Fn(Function, Bits) -> Bits>(m: &M) -> bool {
    forall|f: Function, x: Bits, y: Bits, z: Bits|
        #![trigger gives(m, f, x, y), gives(m, f, x, z)]
        gives(m, f, x, y) && gives(m, f, x, z) ==> y == z
}

/// A function at one argument.
pub fn evaluate<M: Fn(Function, Bits) -> Bits>(m: &M, f: Function, x: Bits) -> (y: Bits)
    requires
        is_total(m),
    ensures
        gives(m, f, x, y),
{
    if f == Function::Unneeded {
        0
    } else {
        m(f, x)
    }
}

} // verus!
