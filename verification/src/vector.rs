//! Fixed-dimension vectors and their arithmetic, over IEEE single-precision
//! coordinates carried as raw bit patterns.

use vstd::prelude::*;

use crate::single::{
    add_bits, div_bits, mul_bits, sub_bits, single_add, single_div, single_mul, single_sub,
};

verus! {

/// Bit pattern of the single-precision constant 2.0, the divisor of the
/// component-wise average.
pub const TWO_BITS: u32 = 0x4000_0000;

/// An ordered, fixed-length tuple of single-precision coordinates, each
/// held as its raw 32-bit pattern. Vectors are immutable value types;
/// its view is the sequence of coordinate bit patterns.
#[derive(Debug)]
pub struct Vector {
    values: Vec<u32>,
}

impl View for Vector {
    type V = Seq<u32>;

    closed spec fn view(&self) -> Seq<u32> {
        self.values@
    }
}

impl Clone for Vector {
    fn clone(&self) -> (r: Self)
        ensures
            r@ == self@,
    {
        Vector { values: self.values.clone() }
    }
}

/// The dot product of two coordinate sequences: the left fold, by IEEE
/// single-precision addition starting from positive zero, of the
/// component-wise IEEE products.
pub open spec fn dot_bits(a: Seq<u32>, b: Seq<u32>) -> u32
    decreases a.len(),
{
    if a.len() == 0 {
        0u32
    } else {
        add_bits(dot_bits(a.drop_last(), b.drop_last()), mul_bits(a.last(), b.last()))
    }
}

/// The squared Euclidean distance of two coordinate sequences: the left
/// fold, by IEEE single-precision addition starting from positive zero,
/// of the squared component-wise IEEE differences.
pub open spec fn sq_dist_bits(a: Seq<u32>, b: Seq<u32>) -> u32
    decreases a.len(),
{
    if a.len() == 0 {
        0u32
    } else {
        add_bits(
            sq_dist_bits(a.drop_last(), b.drop_last()),
            mul_bits(sub_bits(a.last(), b.last()), sub_bits(a.last(), b.last())),
        )
    }
}

/// Component-wise IEEE single-precision sum.
pub open spec fn add_vec_bits(a: Seq<u32>, b: Seq<u32>) -> Seq<u32> {
    Seq::new(a.len(), |i: int| add_bits(a[i], b[i]))
}

/// Component-wise IEEE single-precision difference.
pub open spec fn sub_vec_bits(a: Seq<u32>, b: Seq<u32>) -> Seq<u32> {
    Seq::new(a.len(), |i: int| sub_bits(a[i], b[i]))
}

/// Component-wise IEEE single-precision average: each component pair is
/// added and the sum divided by 2.0.
pub open spec fn avg_vec_bits(a: Seq<u32>, b: Seq<u32>) -> Seq<u32> {
    Seq::new(a.len(), |i: int| div_bits(add_bits(a[i], b[i]), TWO_BITS))
}

impl Vector {
    /// Wrap a sequence of coordinate bit patterns as a vector.
    pub fn new(values: Vec<u32>) -> (r: Self)
        ensures
            r@ == values@,
    {
        Vector { values }
    }

    /// The coordinate bit patterns, in order.
    pub fn values(&self) -> (r: Vec<u32>)
        ensures
            r@ == self@,
    {
        self.values.clone()
    }

    /// The dimensionality of the vector.
    pub fn len(&self) -> (r: usize)
        ensures
            r == self@.len(),
    {
        self.values.len()
    }

    /// Dot product of two vectors of the same dimensionality.
    pub fn dot(&self, vector: &Vector) -> (r: u32)
        requires
            vector@.len() == self@.len(),
        ensures
            r == dot_bits(self@, vector@),
    {
        let n = self.values.len();
        let mut acc: u32 = 0;
        let mut i: usize = 0;
        while i < n
            invariant
                n == self@.len(),
                vector@.len() == self@.len(),
                i <= n,
                acc == dot_bits(self@.take(i as int), vector@.take(i as int)),
            decreases n - i,
        {
            let p = single_mul(self.values[i], vector.values[i]);
            acc = single_add(acc, p);
            proof {
                let j = i + 1;
                assert(self@.take(j as int).drop_last() =~= self@.take(i as int));
                assert(vector@.take(j as int).drop_last() =~= vector@.take(i as int));
                assert(self@.take(j as int).last() == self@[i as int]);
                assert(vector@.take(j as int).last() == vector@[i as int]);
            }
            i = i + 1;
        }
        proof {
            assert(self@.take(n as int) =~= self@);
            assert(vector@.take(n as int) =~= vector@);
        }
        acc
    }

    /// Component-wise average of two vectors of the same dimensionality.
    pub fn avg(&self, vector: &Vector) -> (r: Vector)
        requires
            vector@.len() == self@.len(),
        ensures
            r@ == avg_vec_bits(self@, vector@),
    {
        let n = self.values.len();
        let mut values: Vec<u32> = Vec::new();
        let mut i: usize = 0;
        while i < n
            invariant
                n == self@.len(),
                vector@.len() == self@.len(),
                i <= n,
                values@.len() == i,
                forall|j: int|
                    0 <= j < i ==> values@[j] == div_bits(
                        add_bits(self@[j], vector@[j]),
                        TWO_BITS,
                    ),
            decreases n - i,
        {
            let s = single_add(self.values[i], vector.values[i]);
            values.push(single_div(s, TWO_BITS));
            i = i + 1;
        }
        proof {
            assert(values@ =~= avg_vec_bits(self@, vector@));
        }
        Vector { values }
    }

    /// Component-wise difference of two vectors of the same dimensionality.
    pub fn sub(&self, vector: &Vector) -> (r: Vector)
        requires
            vector@.len() == self@.len(),
        ensures
            r@ == sub_vec_bits(self@, vector@),
    {
        let n = self.values.len();
        let mut values: Vec<u32> = Vec::new();
        let mut i: usize = 0;
        while i < n
            invariant
                n == self@.len(),
                vector@.len() == self@.len(),
                i <= n,
                values@.len() == i,
                forall|j: int| 0 <= j < i ==> values@[j] == sub_bits(self@[j], vector@[j]),
            decreases n - i,
        {
            values.push(single_sub(self.values[i], vector.values[i]));
            i = i + 1;
        }
        proof {
            assert(values@ =~= sub_vec_bits(self@, vector@));
        }
        Vector { values }
    }

    /// Component-wise sum of two vectors of the same dimensionality.
    pub fn add(&self, vector: &Vector) -> (r: Vector)
        requires
            vector@.len() == self@.len(),
        ensures
            r@ == add_vec_bits(self@, vector@),
    {
        let n = self.values.len();
        let mut values: Vec<u32> = Vec::new();
        let mut i: usize = 0;
        while i < n
            invariant
                n == self@.len(),
                vector@.len() == self@.len(),
                i <= n,
                values@.len() == i,
                forall|j: int| 0 <= j < i ==> values@[j] == add_bits(self@[j], vector@[j]),
            decreases n - i,
        {
            values.push(single_add(self.values[i], vector.values[i]));
            i = i + 1;
        }
        proof {
            assert(values@ =~= add_vec_bits(self@, vector@));
        }
        Vector { values }
    }

    /// Squared Euclidean distance between two vectors of the same
    /// dimensionality, the metric that ranks search results.
    pub fn squared_euclidian_distance(&self, vector: &Vector) -> (r: u32)
        requires
            vector@.len() == self@.len(),
        ensures
            r == sq_dist_bits(self@, vector@),
    {
        let n = self.values.len();
        let mut acc: u32 = 0;
        let mut i: usize = 0;
        while i < n
            invariant
                n == self@.len(),
                vector@.len() == self@.len(),
                i <= n,
                acc == sq_dist_bits(self@.take(i as int), vector@.take(i as int)),
            decreases n - i,
        {
            let d = single_sub(self.values[i], vector.values[i]);
            acc = single_add(acc, single_mul(d, d));
            proof {
                let j = i + 1;
                assert(self@.take(j as int).drop_last() =~= self@.take(i as int));
                assert(vector@.take(j as int).drop_last() =~= vector@.take(i as int));
                assert(self@.take(j as int).last() == self@[i as int]);
                assert(vector@.take(j as int).last() == vector@[i as int]);
            }
            i = i + 1;
        }
        proof {
            assert(self@.take(n as int) =~= self@);
            assert(vector@.take(n as int) =~= vector@);
        }
        acc
    }

    /// The exact-equality key of the vector: the sequence of raw
    /// coordinate bit patterns. Two vectors share a key exactly when
    /// every coordinate's bit pattern matches, so NaN payloads and the
    /// sign of zero are distinguished, deliberately departing from IEEE
    /// numeric equality. The key serves deduplication only, never
    /// ranking.
    pub fn hashkey(&self) -> (r: HashKey)
        ensures
            r@ == self@,
    {
        HashKey(self.values.clone())
    }
}

/// An opaque, equality-and-hash-comparable key identifying a vector's
/// exact bit contents.
#[derive(Eq, Hash, Debug)]
pub struct HashKey(Vec<u32>);

impl View for HashKey {
    type V = Seq<u32>;

    closed spec fn view(&self) -> Seq<u32> {
        self.0@
    }
}

impl vstd::std_specs::cmp::PartialEqSpecImpl for HashKey {
    open spec fn obeys_eq_spec() -> bool {
        true
    }

    open spec fn eq_spec(&self, other: &HashKey) -> bool {
        self@ == other@
    }
}

impl PartialEq for HashKey {
    fn eq(&self, other: &HashKey) -> (r: bool) {
        if self.0.len() != other.0.len() {
            return false;
        }
        let n = self.0.len();
        let mut i: usize = 0;
        while i < n
            invariant
                n == self.0@.len(),
                other.0@.len() == n,
                i <= n,
                forall|j: int| 0 <= j < i ==> self.0@[j] == other.0@[j],
            decreases n - i,
        {
            if self.0[i] != other.0[i] {
                return false;
            }
            i = i + 1;
        }
        proof {
            assert(self.0@ =~= other.0@);
        }
        true
    }
}

} // verus!
