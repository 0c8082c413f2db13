//! An affine splitting plane in N-dimensional space.

use vstd::prelude::*;

use crate::single::{add_bits, ge_zero_bits, single_add, single_ge_zero};
use crate::vector::{dot_bits, Vector};

verus! {

/// A hyperplane: a normal vector of coefficients and a scalar constant,
/// together naming the set of points `x` with
/// `coefficients . x + constant == 0`. The constant is an IEEE
/// single-precision bit pattern, as every coordinate is. A plane is
/// immutable once constructed.
pub struct HyperPlane {
    pub coefficients: Vector,
    pub constant: u32,
}

/// Whether a point lies on or above the plane: the IEEE single-precision
/// evaluation of `coefficients . point + constant` compares greater than
/// or equal to zero, so the boundary itself counts as above.
pub open spec fn point_above(coefficients: Seq<u32>, constant: u32, point: Seq<u32>) -> bool {
    ge_zero_bits(add_bits(dot_bits(coefficients, point), constant))
}

impl HyperPlane {
    /// Assemble a plane from its normal vector and constant term.
    pub fn new(coefficients: Vector, constant: u32) -> (r: Self)
        ensures
            r.coefficients@ == coefficients@,
            r.constant == constant,
    {
        Self { coefficients, constant }
    }

    /// Decide the side of the plane that `point` falls on; the closed
    /// half-space above the plane includes the boundary.
    pub fn is_point_above(&self, point: &Vector) -> (r: bool)
        requires
            point@.len() == self.coefficients@.len(),
        ensures
            r == point_above(self.coefficients@, self.constant, point@),
    {
        let d = self.coefficients.dot(point);
        single_ge_zero(single_add(d, self.constant))
    }
}

} // verus!
