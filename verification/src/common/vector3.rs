//! Three-component vectors of lengths.

use crate::common::number::Real;
use vstd::prelude::*;
use vstd::std_specs::ops::AddSpecImpl;
use vstd::std_specs::ops::SubSpecImpl;

verus! {

/// The largest component for which products of two vectors are computed: a
/// sum of four coordinates.
pub const COMPONENT_MAX: i64 = 2_000_000_000_000_000_000;

/// A three-dimensional vector of lengths.
///
/// Two vectors are equal when their components are: a step is far below the
/// tolerance that rounding in floating point would call for.
#[derive(Debug, Copy, Clone, PartialEq, Eq, Structural)]
pub struct Vector3 {
    /// The x component.
    pub x: Real,
    /// The y component.
    pub y: Real,
    /// The z component.
    pub z: Real,
}

impl Vector3 {
    /// Whether every component is at most `limit` in magnitude.
    pub open spec fn bounded(self, limit: int) -> bool {
        &&& -limit <= self.x <= limit
        &&& -limit <= self.y <= limit
        &&& -limit <= self.z <= limit
    }

    /// Whether the sum with `other` has components that fit the machine.
    pub open spec fn can_add(self, other: Vector3) -> bool {
        &&& i64::MIN <= self.x + other.x <= i64::MAX
        &&& i64::MIN <= self.y + other.y <= i64::MAX
        &&& i64::MIN <= self.z + other.z <= i64::MAX
    }

    /// Whether the difference with `other` has components that fit the machine.
    pub open spec fn can_sub(self, other: Vector3) -> bool {
        &&& i64::MIN <= self.x - other.x <= i64::MAX
        &&& i64::MIN <= self.y - other.y <= i64::MAX
        &&& i64::MIN <= self.z - other.z <= i64::MAX
    }

    /// Whether `factor` times the vector has components that fit the machine.
    pub open spec fn can_scale(self, factor: int) -> bool {
        &&& i64::MIN <= self.x * factor <= i64::MAX
        &&& i64::MIN <= self.y * factor <= i64::MAX
        &&& i64::MIN <= self.z * factor <= i64::MAX
    }

    /// The sum of two vectors.
    pub open spec fn spec_plus(self, other: Vector3) -> Vector3 {
        Vector3 {
            x: (self.x + other.x) as i64,
            y: (self.y + other.y) as i64,
            z: (self.z + other.z) as i64,
        }
    }

    /// The difference of two vectors.
    pub open spec fn spec_minus(self, other: Vector3) -> Vector3 {
        Vector3 {
            x: (self.x - other.x) as i64,
            y: (self.y - other.y) as i64,
            z: (self.z - other.z) as i64,
        }
    }

    /// The x component of the difference with `other`, without a limit.
    pub open spec fn spec_minus_exact_x(self, other: Vector3) -> int {
        self.x - other.x
    }

    /// The y component of the difference with `other`, without a limit.
    pub open spec fn spec_minus_exact_y(self, other: Vector3) -> int {
        self.y - other.y
    }

    /// The vector with every component multiplied by `factor`.
    pub open spec fn spec_scaled(self, factor: int) -> Vector3 {
        Vector3 {
            x: (self.x * factor) as i64,
            y: (self.y * factor) as i64,
            z: (self.z * factor) as i64,
        }
    }

    /// The dot product of two vectors.
    pub open spec fn spec_dot(self, other: Vector3) -> int {
        self.x * other.x + self.y * other.y + self.z * other.z
    }

    /// The x component of the cross product.
    pub open spec fn spec_cross_x(self, other: Vector3) -> int {
        self.y * other.z - self.z * other.y
    }

    /// The y component of the cross product.
    pub open spec fn spec_cross_y(self, other: Vector3) -> int {
        self.z * other.x - self.x * other.z
    }

    /// The z component of the cross product.
    pub open spec fn spec_cross_z(self, other: Vector3) -> int {
        self.x * other.y - self.y * other.x
    }

    /// Whether the cross product with `other` has components that fit the
    /// machine.
    pub open spec fn can_cross(self, other: Vector3) -> bool {
        &&& self.bounded(COMPONENT_MAX as int)
        &&& other.bounded(COMPONENT_MAX as int)
        &&& i64::MIN <= self.spec_cross_x(other) <= i64::MAX
        &&& i64::MIN <= self.spec_cross_y(other) <= i64::MAX
        &&& i64::MIN <= self.spec_cross_z(other) <= i64::MAX
    }

    /// The square of the length of the vector.
    pub open spec fn spec_length_squared(self) -> int {
        self.spec_dot(self)
    }

    /// The vector from up to three components; those not given are zero.
    pub fn new_from_vec(vector: Vec<Real>) -> (v: Vector3)
        requires
            1 <= vector@.len() <= 3,
        ensures
            v.x == vector@[0],
            v.y == if vector@.len() >= 2 { vector@[1] } else { 0 },
            v.z == if vector@.len() >= 3 { vector@[2] } else { 0 },
    {
        let n = vector.len();
        Vector3 {
            x: vector[0],
            y: if n >= 2 {
                vector[1]
            } else {
                0
            },
            z: if n >= 3 {
                vector[2]
            } else {
                0
            },
        }
    }

    /// Multiplies every component by `factor`.
    pub fn scale_in_place(&mut self, factor: Real)
        requires
            old(self).can_scale(factor as int),
        ensures
            *final(self) == old(self).spec_scaled(factor as int),
    {
        self.x = self.x * factor;
        self.y = self.y * factor;
        self.z = self.z * factor;
    }

    /// Adds `amount` to the vector.
    pub fn add_in_place(&mut self, amount: &Vector3)
        requires
            old(self).can_add(*amount),
        ensures
            *final(self) == old(self).spec_plus(*amount),
    {
        self.x = self.x + amount.x;
        self.y = self.y + amount.y;
        self.z = self.z + amount.z;
    }

    /// The dot product with `other`.
    pub fn dot(&self, other: &Vector3) -> (product: i128)
        requires
            self.bounded(COMPONENT_MAX as int),
            other.bounded(COMPONENT_MAX as int),
        ensures
            product == self.spec_dot(*other),
    {
        let xx = mul_wide(self.x, other.x);
        let yy = mul_wide(self.y, other.y);
        let zz = mul_wide(self.z, other.z);
        xx + yy + zz
    }

    /// The cross product with `other`.
    pub fn cross(&self, other: &Vector3) -> (product: Vector3)
        requires
            self.can_cross(*other),
        ensures
            product.x == self.spec_cross_x(*other),
            product.y == self.spec_cross_y(*other),
            product.z == self.spec_cross_z(*other),
    {
        let x = mul_wide(self.y, other.z) - mul_wide(self.z, other.y);
        let y = mul_wide(self.z, other.x) - mul_wide(self.x, other.z);
        let z = mul_wide(self.x, other.y) - mul_wide(self.y, other.x);
        Vector3 { x: x as i64, y: y as i64, z: z as i64 }
    }

    /// The square of the length of the vector.
    pub fn length_squared(&self) -> (square: i128)
        requires
            self.bounded(COMPONENT_MAX as int),
        ensures
            square == self.spec_length_squared(),
            square >= 0,
    {
        let xx = mul_wide(self.x, self.x);
        let yy = mul_wide(self.y, self.y);
        let zz = mul_wide(self.z, self.z);
        proof {
            assert(self.x * self.x >= 0) by (nonlinear_arith);
            assert(self.y * self.y >= 0) by (nonlinear_arith);
            assert(self.z * self.z >= 0) by (nonlinear_arith);
        }
        xx + yy + zz
    }

    /// The square of the distance to `other`.
    pub fn dist_squared_to(&self, other: &Vector3) -> (square: i128)
        requires
            self.bounded(COMPONENT_MAX as int / 2),
            other.bounded(COMPONENT_MAX as int / 2),
        ensures
            square == other.spec_minus(*self).spec_length_squared(),
            square >= 0,
    {
        let d = Vector3 { x: other.x - self.x, y: other.y - self.y, z: other.z - self.z };
        d.length_squared()
    }
}

/// The product of two numbers of at most [`COMPONENT_MAX`] in magnitude,
/// computed in twice the width.
pub fn mul_wide(a: i64, b: i64) -> (product: i128)
    requires
        -COMPONENT_MAX <= a <= COMPONENT_MAX,
        -COMPONENT_MAX <= b <= COMPONENT_MAX,
    ensures
        product == a * b,
        -4_000_000_000_000_000_000_000_000_000_000_000_000 <= product
            <= 4_000_000_000_000_000_000_000_000_000_000_000_000,
{
    proof {
        lemma_product_bound(a as int, b as int, COMPONENT_MAX as int);
    }
    (a as i128) * (b as i128)
}

/// A product is bounded by the square of a bound on its factors.
pub proof fn lemma_product_bound(a: int, b: int, limit: int)
    requires
        -limit <= a <= limit,
        -limit <= b <= limit,
    ensures
        -(limit * limit) <= a * b <= limit * limit,
{
    assert(-(limit * limit) <= a * b <= limit * limit) by (nonlinear_arith)
        requires
            -limit <= a <= limit,
            -limit <= b <= limit,
    ;
}

impl core::ops::Add for &Vector3 {
    type Output = Vector3;

    fn add(self, other: &Vector3) -> (sum: Vector3) {
        Vector3 { x: self.x + other.x, y: self.y + other.y, z: self.z + other.z }
    }
}

impl AddSpecImpl for &Vector3 {
    open spec fn obeys_add_spec() -> bool {
        true
    }

    open spec fn add_req(self, other: &Vector3) -> bool {
        self.can_add(*other)
    }

    open spec fn add_spec(self, other: &Vector3) -> Vector3 {
        self.spec_plus(*other)
    }
}

impl core::ops::AddAssign for Vector3 {
    fn add_assign(&mut self, other: Vector3)
        requires
            old(self).can_add(other),
        ensures
            *final(self) == old(self).spec_plus(other),
    {
        self.x = self.x + other.x;
        self.y = self.y + other.y;
        self.z = self.z + other.z;
    }
}

impl core::ops::Sub for &Vector3 {
    type Output = Vector3;

    fn sub(self, other: &Vector3) -> (difference: Vector3) {
        Vector3 { x: self.x - other.x, y: self.y - other.y, z: self.z - other.z }
    }
}

impl SubSpecImpl for &Vector3 {
    open spec fn obeys_sub_spec() -> bool {
        true
    }

    open spec fn sub_req(self, other: &Vector3) -> bool {
        self.can_sub(*other)
    }

    open spec fn sub_spec(self, other: &Vector3) -> Vector3 {
        self.spec_minus(*other)
    }
}

/// A list of vectors kept as three lists of components, as the flow solver
/// goes through them.
#[derive(Debug, PartialEq, Eq)]
pub struct ArrayVec3 {
    x: Vec<Real>,
    y: Vec<Real>,
    z: Vec<Real>,
    len: usize,
}

/// Whether a number fits a component.
pub open spec fn fits_component(value: int) -> bool {
    i64::MIN <= value <= i64::MAX
}

impl ArrayVec3 {
    /// Whether the three lists of components are as long as the list of
    /// vectors.
    pub closed spec fn valid(&self) -> bool {
        &&& self.x@.len() == self.len
        &&& self.y@.len() == self.len
        &&& self.z@.len() == self.len
    }

    /// The vectors, in contracts.
    pub closed spec fn spec_vectors(&self) -> Seq<Vector3> {
        Seq::new(
            self.len as nat,
            |i: int| Vector3 { x: self.x@[i], y: self.y@[i], z: self.z@[i] },
        )
    }

    /// Whether a vector can be brought into the frames of `n`, `t1` and
    /// `t2`: its dot products with them fit a component.
    pub open spec fn can_turn(v: Vector3, n: Vector3, t1: Vector3, t2: Vector3) -> bool {
        &&& v.bounded(COMPONENT_MAX as int)
        &&& n.bounded(COMPONENT_MAX as int)
        &&& t1.bounded(COMPONENT_MAX as int)
        &&& t2.bounded(COMPONENT_MAX as int)
        &&& fits_component(v.spec_dot(n))
        &&& fits_component(v.spec_dot(t1))
        &&& fits_component(v.spec_dot(t2))
    }

    /// The list of the given vectors.
    pub fn from_vector3s(vector3s: &[Vector3]) -> (array: ArrayVec3)
        ensures
            array.valid(),
            array.spec_vectors() == vector3s@,
    {
        let n = vector3s.len();
        let mut x: Vec<Real> = Vec::with_capacity(n);
        let mut y: Vec<Real> = Vec::with_capacity(n);
        let mut z: Vec<Real> = Vec::with_capacity(n);
        let mut i: usize = 0;
        while i < n
            invariant
                i <= n,
                n == vector3s@.len(),
                x@.len() == i,
                y@.len() == i,
                z@.len() == i,
                forall|j: int|
                    0 <= j < i ==> x@[j] == (#[trigger] vector3s@[j]).x && y@[j] == vector3s@[j].y
                        && z@[j] == vector3s@[j].z,
            decreases n - i,
        {
            x.push(vector3s[i].x);
            y.push(vector3s[i].y);
            z.push(vector3s[i].z);
            i = i + 1;
        }
        let array = ArrayVec3 { x, y, z, len: n };
        proof {
            assert(array.spec_vectors() =~= vector3s@);
        }
        array
    }

    /// The number of vectors.
    pub fn len(&self) -> (len: usize)
        ensures
            len == self.spec_vectors().len(),
    {
        self.len
    }

    /// The x components of the vectors.
    pub fn x(&self) -> (x: &Vec<Real>)
        ensures
            self.valid() ==> x@.len() == self.spec_vectors().len() && forall|i: int|
                0 <= i < x@.len() ==> x@[i] == (#[trigger] self.spec_vectors()[i]).x,
    {
        &self.x
    }

    /// The y components of the vectors.
    pub fn y(&self) -> (y: &Vec<Real>)
        ensures
            self.valid() ==> y@.len() == self.spec_vectors().len() && forall|i: int|
                0 <= i < y@.len() ==> y@[i] == (#[trigger] self.spec_vectors()[i]).y,
    {
        &self.y
    }

    /// The z components of the vectors.
    pub fn z(&self) -> (z: &Vec<Real>)
        ensures
            self.valid() ==> z@.len() == self.spec_vectors().len() && forall|i: int|
                0 <= i < z@.len() ==> z@[i] == (#[trigger] self.spec_vectors()[i]).z,
    {
        &self.z
    }

    /// The vector at the place `index`.
    pub fn get(&self, index: usize) -> (vector: Vector3)
        requires
            self.valid(),
            index < self.spec_vectors().len(),
        ensures
            vector == self.spec_vectors()[index as int],
    {
        Vector3 { x: self.x[index], y: self.y[index], z: self.z[index] }
    }

    /// Multiplies every component of every vector by `factor`.
    pub fn scale_in_place(&mut self, factor: Real)
        requires
            old(self).valid(),
            forall|i: int|
                0 <= i < old(self).spec_vectors().len() ==> (#[trigger] old(self).spec_vectors()[i]).can_scale(factor as int),
        ensures
            final(self).valid(),
            final(self).spec_vectors().len() == old(self).spec_vectors().len(),
            forall|i: int|
                0 <= i < old(self).spec_vectors().len() ==> #[trigger] final(self).spec_vectors()[i] == old(self).spec_vectors()[i].spec_scaled(factor as int),
    {
        let n = self.len;
        let ghost before = self.spec_vectors();
        let mut i: usize = 0;
        while i < n
            invariant
                i <= n,
                n == self.len,
                self.valid(),
                before == old(self).spec_vectors(),
                before.len() == n,
                forall|j: int| 0 <= j < n ==> (#[trigger] before[j]).can_scale(factor as int),
                forall|j: int|
                    0 <= j < i ==> #[trigger] self.spec_vectors()[j] == before[j].spec_scaled(
                        factor as int,
                    ),
                forall|j: int| i <= j < n ==> #[trigger] self.spec_vectors()[j] == before[j],
            decreases n - i,
        {
            let ghost now = self.spec_vectors();
            proof {
                assert(now[i as int] == before[i as int]);
                assert(before[i as int].can_scale(factor as int));
            }
            let x = self.x[i] * factor;
            let y = self.y[i] * factor;
            let z = self.z[i] * factor;
            self.x.set(i, x);
            self.y.set(i, y);
            self.z.set(i, z);
            proof {
                assert forall|j: int| 0 <= j < n && j != i implies #[trigger] self.spec_vectors()[j]
                    == now[j] by {}
            }
            i = i + 1;
        }
    }

    /// Brings every vector into the frame of the vectors of `n`, `t1` and
    /// `t2` at its place: its components become its dot products with them.
    pub fn transform_to_local_frame(&mut self, n: &ArrayVec3, t1: &ArrayVec3, t2: &ArrayVec3)
        requires
            old(self).valid(),
            n.valid(),
            t1.valid(),
            t2.valid(),
            n.spec_vectors().len() == old(self).spec_vectors().len(),
            t1.spec_vectors().len() == old(self).spec_vectors().len(),
            t2.spec_vectors().len() == old(self).spec_vectors().len(),
            forall|i: int|
                0 <= i < old(self).spec_vectors().len() ==> ArrayVec3::can_turn(
                    #[trigger] old(self).spec_vectors()[i],
                    n.spec_vectors()[i],
                    t1.spec_vectors()[i],
                    t2.spec_vectors()[i],
                ),
        ensures
            final(self).valid(),
            final(self).spec_vectors().len() == old(self).spec_vectors().len(),
            forall|i: int|
                0 <= i < old(self).spec_vectors().len() ==> {
                    let v = old(self).spec_vectors()[i];
                    let w = #[trigger] final(self).spec_vectors()[i];
                    &&& w.x == v.spec_dot(n.spec_vectors()[i])
                    &&& w.y == v.spec_dot(t1.spec_vectors()[i])
                    &&& w.z == v.spec_dot(t2.spec_vectors()[i])
                },
    {
        let count = self.len;
        let ghost before = self.spec_vectors();
        let mut i: usize = 0;
        while i < count
            invariant
                i <= count,
                count == self.len,
                self.valid(),
                n.valid(),
                t1.valid(),
                t2.valid(),
                before == old(self).spec_vectors(),
                before.len() == count,
                n.spec_vectors().len() == count,
                t1.spec_vectors().len() == count,
                t2.spec_vectors().len() == count,
                forall|j: int|
                    0 <= j < count ==> ArrayVec3::can_turn(
                        #[trigger] before[j],
                        n.spec_vectors()[j],
                        t1.spec_vectors()[j],
                        t2.spec_vectors()[j],
                    ),
                forall|j: int|
                    0 <= j < i ==> {
                        let w = #[trigger] self.spec_vectors()[j];
                        &&& w.x == before[j].spec_dot(n.spec_vectors()[j])
                        &&& w.y == before[j].spec_dot(t1.spec_vectors()[j])
                        &&& w.z == before[j].spec_dot(t2.spec_vectors()[j])
                    },
                forall|j: int| i <= j < count ==> #[trigger] self.spec_vectors()[j] == before[j],
            decreases count - i,
        {
            let ghost now = self.spec_vectors();
            proof {
                assert(now[i as int] == before[i as int]);
                assert(ArrayVec3::can_turn(
                    before[i as int],
                    n.spec_vectors()[i as int],
                    t1.spec_vectors()[i as int],
                    t2.spec_vectors()[i as int],
                ));
            }
            let v = self.get(i);
            let x = v.dot(&n.get(i));
            let y = v.dot(&t1.get(i));
            let z = v.dot(&t2.get(i));
            self.x.set(i, x as i64);
            self.y.set(i, y as i64);
            self.z.set(i, z as i64);
            proof {
                assert forall|j: int|
                    0 <= j < count && j != i implies #[trigger] self.spec_vectors()[j]
                    == now[j] by {}
            }
            i = i + 1;
        }
    }

    /// Brings every vector back out of the frame of the vectors of `n`,
    /// `t1` and `t2` at its place: its components become the sums of its
    /// parts along them.
    pub fn transform_to_global_frame(&mut self, n: &ArrayVec3, t1: &ArrayVec3, t2: &ArrayVec3)
        requires
            old(self).valid(),
            n.valid(),
            t1.valid(),
            t2.valid(),
            n.spec_vectors().len() == old(self).spec_vectors().len(),
            t1.spec_vectors().len() == old(self).spec_vectors().len(),
            t2.spec_vectors().len() == old(self).spec_vectors().len(),
            forall|i: int|
                0 <= i < old(self).spec_vectors().len() ==> ArrayVec3::can_turn(
                    #[trigger] old(self).spec_vectors()[i],
                    ArrayVec3::frame_row_x(
                        n.spec_vectors()[i],
                        t1.spec_vectors()[i],
                        t2.spec_vectors()[i],
                    ),
                    ArrayVec3::frame_row_y(
                        n.spec_vectors()[i],
                        t1.spec_vectors()[i],
                        t2.spec_vectors()[i],
                    ),
                    ArrayVec3::frame_row_z(
                        n.spec_vectors()[i],
                        t1.spec_vectors()[i],
                        t2.spec_vectors()[i],
                    ),
                ),
        ensures
            final(self).valid(),
            final(self).spec_vectors().len() == old(self).spec_vectors().len(),
            forall|i: int|
                0 <= i < old(self).spec_vectors().len() ==> {
                    let v = old(self).spec_vectors()[i];
                    let w = #[trigger] final(self).spec_vectors()[i];
                    let a = n.spec_vectors()[i];
                    let b = t1.spec_vectors()[i];
                    let c = t2.spec_vectors()[i];
                    &&& w.x == v.x * a.x + v.y * b.x + v.z * c.x
                    &&& w.y == v.x * a.y + v.y * b.y + v.z * c.y
                    &&& w.z == v.x * a.z + v.y * b.z + v.z * c.z
                },
    {
        let count = self.len;
        let ghost before = self.spec_vectors();
        let mut i: usize = 0;
        while i < count
            invariant
                i <= count,
                count == self.len,
                self.valid(),
                n.valid(),
                t1.valid(),
                t2.valid(),
                before == old(self).spec_vectors(),
                before.len() == count,
                n.spec_vectors().len() == count,
                t1.spec_vectors().len() == count,
                t2.spec_vectors().len() == count,
                forall|j: int|
                    0 <= j < count ==> ArrayVec3::can_turn(
                        #[trigger] before[j],
                        ArrayVec3::frame_row_x(
                            n.spec_vectors()[j],
                            t1.spec_vectors()[j],
                            t2.spec_vectors()[j],
                        ),
                        ArrayVec3::frame_row_y(
                            n.spec_vectors()[j],
                            t1.spec_vectors()[j],
                            t2.spec_vectors()[j],
                        ),
                        ArrayVec3::frame_row_z(
                            n.spec_vectors()[j],
                            t1.spec_vectors()[j],
                            t2.spec_vectors()[j],
                        ),
                    ),
                forall|j: int|
                    0 <= j < i ==> {
                        let v = before[j];
                        let w = #[trigger] self.spec_vectors()[j];
                        let a = n.spec_vectors()[j];
                        let b = t1.spec_vectors()[j];
                        let c = t2.spec_vectors()[j];
                        &&& w.x == v.x * a.x + v.y * b.x + v.z * c.x
                        &&& w.y == v.x * a.y + v.y * b.y + v.z * c.y
                        &&& w.z == v.x * a.z + v.y * b.z + v.z * c.z
                    },
                forall|j: int| i <= j < count ==> #[trigger] self.spec_vectors()[j] == before[j],
            decreases count - i,
        {
            let ghost now = self.spec_vectors();
            let v = self.get(i);
            let a = n.get(i);
            let b = t1.get(i);
            let c = t2.get(i);
            proof {
                assert(now[i as int] == before[i as int]);
                assert(ArrayVec3::can_turn(
                    before[i as int],
                    ArrayVec3::frame_row_x(a, b, c),
                    ArrayVec3::frame_row_y(a, b, c),
                    ArrayVec3::frame_row_z(a, b, c),
                ));
            }
            let x = v.dot(&Vector3 { x: a.x, y: b.x, z: c.x });
            let y = v.dot(&Vector3 { x: a.y, y: b.y, z: c.y });
            let z = v.dot(&Vector3 { x: a.z, y: b.z, z: c.z });
            self.x.set(i, x as i64);
            self.y.set(i, y as i64);
            self.z.set(i, z as i64);
            proof {
                assert forall|j: int|
                    0 <= j < count && j != i implies #[trigger] self.spec_vectors()[j]
                    == now[j] by {}
            }
            i = i + 1;
        }
    }

    /// The x components of three vectors of a frame.
    pub open spec fn frame_row_x(n: Vector3, t1: Vector3, t2: Vector3) -> Vector3 {
        Vector3 { x: n.x, y: t1.x, z: t2.x }
    }

    /// The y components of three vectors of a frame.
    pub open spec fn frame_row_y(n: Vector3, t1: Vector3, t2: Vector3) -> Vector3 {
        Vector3 { x: n.y, y: t1.y, z: t2.y }
    }

    /// The z components of three vectors of a frame.
    pub open spec fn frame_row_z(n: Vector3, t1: Vector3, t2: Vector3) -> Vector3 {
        Vector3 { x: n.z, y: t1.z, z: t2.z }
    }
}

} // verus!
