//! Integer vectors in the plane: grid positions and the steps between them.

use std::cmp::Ordering;
use vstd::prelude::*;
use vstd::std_specs::cmp::PartialOrdSpecImpl;
use vstd::std_specs::ops::{AddSpecImpl, MulSpecImpl, RemSpecImpl};

verus! {

/// A vector in the integer plane.
#[derive(Debug, Clone, Copy, PartialEq, Eq, Hash, Structural)]
pub struct Vec2D {
    pub x: i32,
    pub y: i32,
}

impl Vec2D {
    /// The vector with the given coordinates.
    pub fn new(x: i32, y: i32) -> (v: Vec2D)
        ensures
            v.x == x,
            v.y == y,
    {
        Vec2D { x, y }
    }

    /// Whether the componentwise sum with `rhs` can be held in a `Vec2D`.
    pub open spec fn sum_fits(self, rhs: Vec2D) -> bool {
        &&& i32::MIN <= self.x + rhs.x <= i32::MAX
        &&& i32::MIN <= self.y + rhs.y <= i32::MAX
    }

    /// Adds `rhs` and keeps the sum only if it lies strictly below `w`
    /// horizontally and strictly below `h` vertically.
    pub fn bounded_add(self, rhs: Vec2D, w: i32, h: i32) -> (r: Option<Vec2D>)
        requires
            self.sum_fits(rhs),
        ensures
            r.is_some() <==> (self.x + rhs.x < w && self.y + rhs.y < h),
            r.is_some() ==> r.unwrap().x == self.x + rhs.x && r.unwrap().y == self.y + rhs.y,
    {
        let nx: i32 = self.x + rhs.x;
        let ny: i32 = self.y + rhs.y;
        if nx < w && ny < h {
            Some(Vec2D { x: nx, y: ny })
        } else {
            None
        }
    }
}

impl core::ops::Add for Vec2D {
    type Output = Vec2D;

    /// The componentwise sum.
    fn add(self, rhs: Vec2D) -> (r: Vec2D) {
        Vec2D { x: self.x + rhs.x, y: self.y + rhs.y }
    }
}

impl AddSpecImpl for Vec2D {
    open spec fn obeys_add_spec() -> bool {
        true
    }

    /// The sum stays within the range of `i32`.
    open spec fn add_req(self, rhs: Vec2D) -> bool {
        self.sum_fits(rhs)
    }

    open spec fn add_spec(self, rhs: Vec2D) -> Vec2D {
        Vec2D { x: (self.x + rhs.x) as i32, y: (self.y + rhs.y) as i32 }
    }
}

impl core::ops::AddAssign for Vec2D {
    /// Adds `rhs` in place.
    fn add_assign(&mut self, rhs: Vec2D)
        requires
            old(self).sum_fits(rhs),
        ensures
            final(self).x == old(self).x + rhs.x,
            final(self).y == old(self).y + rhs.y,
    {
        self.x = self.x + rhs.x;
        self.y = self.y + rhs.y;
    }
}

impl core::ops::Mul<i32> for Vec2D {
    type Output = Vec2D;

    /// Scalar multiplication.
    fn mul(self, rhs: i32) -> (r: Vec2D) {
        Vec2D { x: self.x * rhs, y: self.y * rhs }
    }
}

impl MulSpecImpl<i32> for Vec2D {
    open spec fn obeys_mul_spec() -> bool {
        true
    }

    /// Both products stay within the range of `i32`.
    open spec fn mul_req(self, rhs: i32) -> bool {
        &&& i32::MIN <= self.x * rhs <= i32::MAX
        &&& i32::MIN <= self.y * rhs <= i32::MAX
    }

    open spec fn mul_spec(self, rhs: i32) -> Vec2D {
        Vec2D { x: (self.x * rhs) as i32, y: (self.y * rhs) as i32 }
    }
}

/// The remainder that Rust's `%` computes: it has the sign of `x`.
pub open spec fn truncated_rem(x: int, m: int) -> int {
    if x >= 0 {
        x % m
    } else {
        -((-x) % m)
    }
}

/// The remainder of `x` by `m` that has the sign of `m`: for a positive
/// `m` it lies between zero and `m`, zero included.
pub open spec fn wrapped_rem(x: int, m: int) -> int {
    if m > 0 {
        x % m
    } else {
        -((-x) % m)
    }
}

/// A negative modulus leaves the same remainders as its positive
/// counterpart.
pub proof fn lemma_negative_modulus(y: int, m: int)
    requires
        m < 0,
    ensures
        y % m == y % (-m),
        0 <= y % m < -m,
{
    vstd::arithmetic::div_mod::lemma_fundamental_div_mod(y, m);
    let q = y / m;
    let r = y % m;
    assert(0 <= r < -m);
    assert(y == (-q) * (-m) + r) by (nonlinear_arith)
        requires
            y == m * q + r,
    ;
    vstd::arithmetic::div_mod::lemma_fundamental_div_mod_converse_mod(y, -m, -q, r);
}

/// Adding the modulus to a truncated remainder and reducing again gives
/// the remainder with the sign of the modulus.
pub proof fn lemma_wrap(x: int, m: int)
    requires
        m != 0,
    ensures
        truncated_rem(truncated_rem(x, m) + m, m) == wrapped_rem(x, m),
        m > 0 ==> 0 <= wrapped_rem(x, m) < m,
        m < 0 ==> m < wrapped_rem(x, m) <= 0,
{
    let a = truncated_rem(x, m);
    if m > 0 {
        vstd::arithmetic::div_mod::lemma_mod_pos_bound(if x >= 0 {
            x
        } else {
            -x
        }, m);
        vstd::arithmetic::div_mod::lemma_mod_bound(x, m);
        vstd::arithmetic::div_mod::lemma_mod_add_multiples_vanish(a, m);
        assert((a + m) % m == a % m);
        if x < 0 {
            vstd::arithmetic::div_mod::lemma_fundamental_div_mod(-x, m);
            let q = (-x) / m;
            assert(a == m * q + x);
            vstd::arithmetic::div_mod::lemma_mod_multiples_vanish(q, x, m);
            assert((m * q + x) % m == x % m);
        } else {
            vstd::arithmetic::div_mod::lemma_mod_twice(x, m);
        }
    } else {
        let d = -m;
        lemma_negative_modulus(x, m);
        lemma_negative_modulus(-x, m);
        lemma_negative_modulus(d - a, m);
        vstd::arithmetic::div_mod::lemma_mod_add_multiples_vanish(-a, d);
        assert((d - a) % d == (-a) % d);
        if x >= 0 {
            vstd::arithmetic::div_mod::lemma_fundamental_div_mod(x, d);
            let q = x / d;
            assert(-x == d * (-q) + (-a)) by (nonlinear_arith)
                requires
                    x == d * q + a,
            ;
            vstd::arithmetic::div_mod::lemma_mod_multiples_vanish(-q, -a, d);
            assert((d * (-q) + (-a)) % d == (-a) % d);
        } else {
            vstd::arithmetic::div_mod::lemma_mod_twice(-x, d);
        }
    }
}

impl core::ops::Rem for Vec2D {
    type Output = Vec2D;

    /// Calculates the elementwise modulus: each coordinate is reduced by
    /// the matching coordinate of `rhs` to the remainder that has the sign
    /// of that coordinate.
    fn rem(self, rhs: Vec2D) -> (r: Vec2D) {
        proof {
            lemma_wrap(self.x as int, rhs.x as int);
            lemma_wrap(self.y as int, rhs.y as int);
        }
        let ax: i32 = self.x % rhs.x;
        let ay: i32 = self.y % rhs.y;
        Vec2D { x: (ax + rhs.x) % rhs.x, y: (ay + rhs.y) % rhs.y }
    }
}

impl RemSpecImpl for Vec2D {
    open spec fn obeys_rem_spec() -> bool {
        true
    }

    /// No coordinate of `rhs` is zero, and no step of the computation
    /// leaves the range of `i32`.
    open spec fn rem_req(self, rhs: Vec2D) -> bool {
        &&& rhs.x != 0
        &&& rhs.y != 0
        &&& !(self.x == i32::MIN && rhs.x == -1)
        &&& !(self.y == i32::MIN && rhs.y == -1)
        &&& i32::MIN <= truncated_rem(self.x as int, rhs.x as int) + rhs.x <= i32::MAX
        &&& i32::MIN <= truncated_rem(self.y as int, rhs.y as int) + rhs.y <= i32::MAX
    }

    open spec fn rem_spec(self, rhs: Vec2D) -> Vec2D {
        Vec2D {
            x: wrapped_rem(self.x as int, rhs.x as int) as i32,
            y: wrapped_rem(self.y as int, rhs.y as int) as i32,
        }
    }
}

impl PartialOrd for Vec2D {
    /// Orders vectors by `x`, and vectors of equal `x` by `y`.
    fn partial_cmp(&self, other: &Vec2D) -> (r: Option<Ordering>) {
        if self.x < other.x {
            Some(Ordering::Less)
        } else if self.x > other.x {
            Some(Ordering::Greater)
        } else if self.y < other.y {
            Some(Ordering::Less)
        } else if self.y > other.y {
            Some(Ordering::Greater)
        } else {
            Some(Ordering::Equal)
        }
    }
}

impl PartialOrdSpecImpl for Vec2D {
    open spec fn obeys_partial_cmp_spec() -> bool {
        true
    }

    /// The order by `x`, and among vectors of equal `x` by `y`.
    open spec fn partial_cmp_spec(&self, other: &Vec2D) -> Option<Ordering> {
        if self.x < other.x {
            Some(Ordering::Less)
        } else if self.x > other.x {
            Some(Ordering::Greater)
        } else if self.y < other.y {
            Some(Ordering::Less)
        } else if self.y > other.y {
            Some(Ordering::Greater)
        } else {
            Some(Ordering::Equal)
        }
    }
}

} // verus!
