//! Amplitudes and the arithmetic on them.
//!
//! An amplitude is a `num_complex::Complex64`. Its arithmetic is IEEE-754 and
//! is not modelled: each operation has a name, and the operation's wrapper
//! states that it returns what the name denotes.

use num_complex::Complex;
use num_complex::Complex64;
use num_traits::FloatConst;
use vstd::prelude::*;

verus! {

/// `num_complex::Complex<T>`, carried through the library as an opaque value.
#[verifier::external_type_specification]
#[verifier::external_body]
#[verifier::reject_recursive_types(T)]
pub struct ExComplex<T>(Complex<T>);

/// The amplitude whose real part is 1 when `hit` and 0 otherwise, and whose
/// imaginary part is 0.
pub uninterp spec fn basis_amplitude(hit: bool) -> Complex64;

/// `a + b` as `num_complex` computes it.
pub uninterp spec fn sum_of(a: Complex64, b: Complex64) -> Complex64;

/// `a - b` as `num_complex` computes it.
pub uninterp spec fn difference_of(a: Complex64, b: Complex64) -> Complex64;

/// `a * b` as `num_complex` computes it in place.
pub uninterp spec fn product_of(a: Complex64, b: Complex64) -> Complex64;

/// `a` with both parts multiplied by the constant `1/sqrt(2)`.
pub uninterp spec fn root_half_of(a: Complex64) -> Complex64;

/// The complex conjugate of `a`.
pub uninterp spec fn conjugate_of(a: Complex64) -> Complex64;

/// The state vector of length `len` that is `1 + 0i` at `one_index` and zero
/// everywhere else.
pub open spec fn basis_state(len: nat, one_index: int) -> Seq<Complex64> {
    Seq::new(len, |i: int| basis_amplitude(i == one_index))
}

/// Trusted: `Complex::new` of `num_complex`, which makes the amplitude with
/// the given real and imaginary parts. The real part is `hit` turned into a
/// float, 1 for `true` and 0 for `false` as std's `From<bool>` documents, and
/// the imaginary part is 0; so the two amplitudes that it can make differ.
#[verifier::external_body]
pub(crate) fn amp_basis(hit: bool) -> (r: Complex64)
    ensures
        r == basis_amplitude(hit),
        hit <==> r == basis_amplitude(true),
{
    Complex64::new(hit.into(), false.into())
}

/// Trusted: `Add::add` of `num_complex::Complex`, which adds the real parts
/// and the imaginary parts. The result depends on the operands alone.
#[verifier::external_body]
pub(crate) fn amp_add(a: Complex64, b: Complex64) -> (r: Complex64)
    ensures
        r == sum_of(a, b),
{
    a + b
}

/// Trusted: `Sub::sub` of `num_complex::Complex`, which subtracts the real
/// parts and the imaginary parts. The result depends on the operands alone.
#[verifier::external_body]
pub(crate) fn amp_sub(a: Complex64, b: Complex64) -> (r: Complex64)
    ensures
        r == difference_of(a, b),
{
    a - b
}

/// Trusted: `MulAssign::mul_assign` of `num_complex::Complex`, the complex
/// product stored into the left operand. The result depends on the operands
/// alone.
#[verifier::external_body]
pub(crate) fn amp_mul(a: Complex64, b: Complex64) -> (r: Complex64)
    ensures
        r == product_of(a, b),
{
    let mut r = a;
    r *= b;
    r
}

/// Trusted: `Complex::scale` of `num_complex` with the constant
/// `FloatConst::FRAC_1_SQRT_2` of `num_traits`: both parts are multiplied by
/// that constant.
#[verifier::external_body]
pub(crate) fn amp_root_half(a: Complex64) -> (r: Complex64)
    ensures
        r == root_half_of(a),
{
    a.scale(FloatConst::FRAC_1_SQRT_2())
}

/// Trusted: `Complex::conj` of `num_complex`, which negates the imaginary
/// part.
#[verifier::external_body]
pub(crate) fn amp_conj(a: Complex64) -> (r: Complex64)
    ensures
        r == conjugate_of(a),
{
    a.conj()
}

/// Exchanges the amplitudes at `i` and `j`.
pub open spec fn exchanged(s: Seq<Complex64>, i: int, j: int) -> Seq<Complex64> {
    s.update(i, s[j]).update(j, s[i])
}

} // verus!
