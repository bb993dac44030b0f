//! The 2D integer algebra under ship shapes and board cells: signed
//! displacement vectors (`Vec2`) and non-negative grid positions (`Pos2`).

use vstd::prelude::*;

verus! {

/// A signed 2D integer displacement between grid cells. A value, not a
/// location: equality, ordering and hashing are component-wise, x then y.
#[derive(Clone, Copy, Debug, Default, PartialEq, Eq, PartialOrd, Ord, Hash, Structural)]
pub struct Vec2 {
    pub x: isize,
    pub y: isize,
}

/// A non-negative 2D grid coordinate: an absolute board cell.
#[derive(Clone, Copy, Debug, Default, PartialEq, Eq, PartialOrd, Ord, Hash, Structural)]
pub struct Pos2 {
    pub x: usize,
    pub y: usize,
}

/// Offsetting a position by a displacement would leave the non-negative
/// grid; carries the position and offset at fault.
#[derive(Clone, Copy, Debug, PartialEq, Eq, Structural)]
pub struct BoundsError {
    pub pos: Pos2,
    pub offset: Vec2,
}

impl View for Vec2 {
    type V = (int, int);

    open spec fn view(&self) -> (int, int) {
        (self.x as int, self.y as int)
    }
}

impl View for Pos2 {
    type V = (int, int);

    open spec fn view(&self) -> (int, int) {
        (self.x as int, self.y as int)
    }
}

/// Component-wise sum of two displacements.
pub open spec fn vadd(a: (int, int), b: (int, int)) -> (int, int) {
    (a.0 + b.0, a.1 + b.1)
}

/// Component-wise difference of two displacements.
pub open spec fn vsub(a: (int, int), b: (int, int)) -> (int, int) {
    (a.0 - b.0, a.1 - b.1)
}

/// Dot product of two displacements.
pub open spec fn vdot(a: (int, int), b: (int, int)) -> int {
    a.0 * b.0 + a.1 * b.1
}

/// Exact 90-degree clockwise rotation.
pub open spec fn vcw(a: (int, int)) -> (int, int) {
    (a.1, -a.0)
}

/// Exact 90-degree counter-clockwise rotation.
pub open spec fn vccw(a: (int, int)) -> (int, int) {
    (-a.1, a.0)
}

/// A cell expressed as a pair of mathematical integers lies on the board's
/// non-negative grid and fits the machine's coordinate type.
pub open spec fn cell_in_bounds(c: (int, int)) -> bool {
    0 <= c.0 <= usize::MAX && 0 <= c.1 <= usize::MAX
}

/// Vector addition is commutative.
pub proof fn lemma_add_comm(a: (int, int), b: (int, int))
    ensures
        vadd(a, b) == vadd(b, a),
{
}

/// Subtracting a displacement undoes adding it.
pub proof fn lemma_sub_add_cancel(a: (int, int), b: (int, int))
    ensures
        vsub(vadd(a, b), b) == a,
{
}

/// Four quarter turns clockwise return any displacement exactly.
pub proof fn lemma_turn_clock_four(a: (int, int))
    ensures
        vcw(vcw(vcw(vcw(a)))) == a,
{
}

/// Four quarter turns counter-clockwise return any displacement exactly.
pub proof fn lemma_turn_counter_four(a: (int, int))
    ensures
        vccw(vccw(vccw(vccw(a)))) == a,
{
}

/// The two quarter turns are mutual inverses.
pub proof fn lemma_turn_round_trip(a: (int, int))
    ensures
        vcw(vccw(a)) == a,
        vccw(vcw(a)) == a,
{
}

impl Vec2 {
    pub fn new(x: isize, y: isize) -> (r: Self)
        ensures
            r@ == (x as int, y as int),
    {
        Self { x, y }
    }

    /// Dot product of the two displacements.
    pub fn dot_prod(&self, rhs: &Self) -> (r: isize)
        requires
            isize::MIN <= self@.0 * rhs@.0 <= isize::MAX,
            isize::MIN <= self@.1 * rhs@.1 <= isize::MAX,
            isize::MIN <= vdot(self@, rhs@) <= isize::MAX,
        ensures
            r as int == vdot(self@, rhs@),
    {
        (self.x * rhs.x) + (self.y * rhs.y)
    }

    /// The signed area of the axis-aligned rectangle this displacement spans.
    pub fn area_rect(&self) -> (r: isize)
        requires
            isize::MIN <= self@.0 * self@.1 <= isize::MAX,
        ensures
            r as int == self@.0 * self@.1,
    {
        self.x * self.y
    }

    /// Quarter turn counter-clockwise: `(x, y)` becomes `(-y, x)`.
    pub fn turn_counter(self) -> (r: Self)
        requires
            self.y != isize::MIN,
        ensures
            r@ == vccw(self@),
    {
        Self::new(-self.y, self.x)
    }

    /// Quarter turn clockwise: `(x, y)` becomes `(y, -x)`.
    pub fn turn_clock(self) -> (r: Self)
        requires
            self.x != isize::MIN,
        ensures
            r@ == vcw(self@),
    {
        Self::new(self.y, -self.x)
    }
}

impl core::ops::Add for Vec2 {
    type Output = Vec2;

    /// Component-wise sum.
    fn add(self, rhs: Vec2) -> (r: Vec2) {
        Vec2 { x: self.x + rhs.x, y: self.y + rhs.y }
    }
}

impl vstd::std_specs::ops::AddSpecImpl for Vec2 {
    open spec fn obeys_add_spec() -> bool {
        true
    }

    open spec fn add_req(self, rhs: Vec2) -> bool {
        isize::MIN <= self.x + rhs.x <= isize::MAX && isize::MIN <= self.y + rhs.y <= isize::MAX
    }

    open spec fn add_spec(self, rhs: Vec2) -> Vec2 {
        (Vec2 { x: (self.x + rhs.x) as isize, y: (self.y + rhs.y) as isize })
    }
}

impl core::ops::Sub for Vec2 {
    type Output = Vec2;

    /// Component-wise difference, by plain signed subtraction: a component
    /// of the result may be negative.
    fn sub(self, rhs: Vec2) -> (r: Vec2) {
        Vec2 { x: self.x - rhs.x, y: self.y - rhs.y }
    }
}

impl vstd::std_specs::ops::SubSpecImpl for Vec2 {
    open spec fn obeys_sub_spec() -> bool {
        true
    }

    open spec fn sub_req(self, rhs: Vec2) -> bool {
        isize::MIN <= self.x - rhs.x <= isize::MAX && isize::MIN <= self.y - rhs.y <= isize::MAX
    }

    open spec fn sub_spec(self, rhs: Vec2) -> Vec2 {
        (Vec2 { x: (self.x - rhs.x) as isize, y: (self.y - rhs.y) as isize })
    }
}

impl core::ops::Mul for Vec2 {
    type Output = isize;

    /// The `*` operator is the dot product of the two displacements.
    fn mul(self, rhs: Vec2) -> (r: isize) {
        self.dot_prod(&rhs)
    }
}

impl vstd::std_specs::ops::MulSpecImpl for Vec2 {
    open spec fn obeys_mul_spec() -> bool {
        true
    }

    open spec fn mul_req(self, rhs: Vec2) -> bool {
        isize::MIN <= self.x * rhs.x <= isize::MAX && isize::MIN <= self.y * rhs.y <= isize::MAX
            && isize::MIN <= self.x * rhs.x + self.y * rhs.y <= isize::MAX
    }

    open spec fn mul_spec(self, rhs: Vec2) -> isize {
        (self.x * rhs.x + self.y * rhs.y) as isize
    }
}

impl core::convert::From<Pos2> for Vec2 {
    /// Reads an absolute cell as the displacement from the origin.
    fn from(value: Pos2) -> (r: Vec2) {
        Vec2 { x: value.x as isize, y: value.y as isize }
    }
}

impl vstd::std_specs::convert::FromSpecImpl<Pos2> for Vec2 {
    open spec fn obeys_from_spec() -> bool {
        true
    }

    open spec fn from_spec(v: Pos2) -> Vec2 {
        (Vec2 { x: v.x as isize, y: v.y as isize })
    }
}

impl Pos2 {
    pub fn new(x: usize, y: usize) -> (r: Self)
        ensures
            r@ == (x as int, y as int),
    {
        Self { x, y }
    }

    /// The signed displacement from `self` to `rhs`, so that offsetting
    /// `self` by the result lands on `rhs`.
    pub fn distance(&self, rhs: &Self) -> (r: Vec2)
        requires
            self.x <= isize::MAX,
            self.y <= isize::MAX,
            rhs.x <= isize::MAX,
            rhs.y <= isize::MAX,
        ensures
            r@ == vsub(rhs@, self@),
    {
        Vec2::new(rhs.x as isize - self.x as isize, rhs.y as isize - self.y as isize)
    }

    /// Applies a displacement to a position. The grid is non-negative: an
    /// offset that would leave it is rejected with a `BoundsError` naming
    /// the position and offset at fault.
    pub fn offset(&self, v: Vec2) -> (r: Result<Pos2, BoundsError>)
        ensures
            r is Ok <==> cell_in_bounds(vadd(self@, v@)),
            r matches Ok(p) ==> p@ == vadd(self@, v@),
            r matches Err(e) ==> e.pos == *self && e.offset == v,
    {
        let sx = self.x as i128 + v.x as i128;
        let sy = self.y as i128 + v.y as i128;
        if 0 <= sx && sx <= usize::MAX as i128 && 0 <= sy && sy <= usize::MAX as i128 {
            Ok(Pos2 { x: sx as usize, y: sy as usize })
        } else {
            Err(BoundsError { pos: *self, offset: v })
        }
    }
}

} // verus!

verus! {

/// The floor of the square root of a non-negative integer.
pub open spec fn sqrt_floor(n: int) -> int {
    choose|r: int| r >= 0 && (#[trigger] (r * r)) <= n && n < (r + 1) * (r + 1)
}

/// The quotient rounded toward zero.
pub open spec fn div_trunc(a: int, b: int) -> int {
    if a >= 0 {
        a / b
    } else {
        -((-a) / b)
    }
}

/// What normalization yields: each component divided by the vector's
/// integer length (the floor square root of `x*x + y*y`), truncated
/// toward zero; the zero vector stays zero. Exact for the axis-aligned
/// vectors that rotations produce, lossy elsewhere.
pub open spec fn normal_spec(v: (int, int)) -> (int, int) {
    let l = sqrt_floor(v.0 * v.0 + v.1 * v.1);
    if l == 0 {
        (0, 0)
    } else {
        (div_trunc(v.0, l), div_trunc(v.1, l))
    }
}

/// The floor square root is the one value its defining bounds admit.
proof fn lemma_sqrt_floor_unique(n: int, r: int)
    requires
        r >= 0,
        r * r <= n,
        n < (r + 1) * (r + 1),
    ensures
        sqrt_floor(n) == r,
{
    assert(exists|q: int| q >= 0 && (#[trigger] (q * q)) <= n && n < (q + 1) * (q + 1)) by {
        assert(r >= 0 && r * r <= n && n < (r + 1) * (r + 1));
    }
    let c = sqrt_floor(n);
    assert(c >= 0 && c * c <= n < (c + 1) * (c + 1));
    assert(c == r) by (nonlinear_arith)
        requires
            c >= 0,
            r >= 0,
            c * c <= n,
            n < (c + 1) * (c + 1),
            r * r <= n,
            n < (r + 1) * (r + 1),
    ;
}

/// The floor square root, by binary search on the answer.
fn isqrt(n: u128) -> (r: u128)
    ensures
        r as int == sqrt_floor(n as int),
        (r as int) * (r as int) <= n as int,
        (n as int) < ((r as int) + 1) * ((r as int) + 1),
{
    let mut lo: u128 = 0;
    let mut hi: u128 = 0x1_0000_0000_0000_0000u128;
    assert((n as int) < (hi as int) * (hi as int)) by (nonlinear_arith)
        requires
            hi as int == 0x1_0000_0000_0000_0000,
            n <= u128::MAX,
    ;
    while lo + 1 < hi
        invariant
            lo < hi,
            hi <= 0x1_0000_0000_0000_0000u128,
            (lo as int) * (lo as int) <= n as int,
            (n as int) < (hi as int) * (hi as int),
        decreases hi - lo,
    {
        let mid = lo + (hi - lo) / 2;
        assert(lo < mid < hi);
        assert((mid as int) * (mid as int) <= u128::MAX) by (nonlinear_arith)
            requires
                0 <= mid as int <= 0xFFFF_FFFF_FFFF_FFFF,
        ;
        let sq = mid * mid;
        if sq <= n {
            lo = mid;
        } else {
            hi = mid;
        }
    }
    proof {
        lemma_sqrt_floor_unique(n as int, lo as int);
    }
    lo
}

impl Vec2 {
    /// The direction of this displacement: each component divided by the
    /// vector's integer length and truncated toward zero. Meaningful for
    /// the axis-aligned unit steps rotation yields; lossy for oblique
    /// displacements.
    pub fn normal(&self) -> (r: Self)
        requires
            self.x != isize::MIN,
            self.y != isize::MIN,
        ensures
            r@ == normal_spec(self@),
    {
        let ax: usize = if self.x >= 0 {
            self.x as usize
        } else {
            (-self.x) as usize
        };
        let ay: usize = if self.y >= 0 {
            self.y as usize
        } else {
            (-self.y) as usize
        };
        assert((ax as int) * (ax as int) == self@.0 * self@.0 && (ay as int) * (ay as int)
            == self@.1 * self@.1) by (nonlinear_arith)
            requires
                ax as int == (if self@.0 >= 0 { self@.0 } else { -self@.0 }),
                ay as int == (if self@.1 >= 0 { self@.1 } else { -self@.1 }),
        ;
        assert((ax as int) * (ax as int) + (ay as int) * (ay as int) <= u128::MAX) by (
        nonlinear_arith)
            requires
                0 <= ax as int <= 0x7FFF_FFFF_FFFF_FFFF,
                0 <= ay as int <= 0x7FFF_FFFF_FFFF_FFFF,
        ;
        let nsq: u128 = (ax as u128) * (ax as u128) + (ay as u128) * (ay as u128);
        assert(nsq as int == self@.0 * self@.0 + self@.1 * self@.1);
        let l = isqrt(nsq);
        if l == 0 {
            Vec2::new(0, 0)
        } else {
            let qx: u128 = (ax as u128) / l;
            let qy: u128 = (ay as u128) / l;
            assert(qx as int <= ax as int && qy as int <= ay as int) by (nonlinear_arith)
                requires
                    l as int >= 1,
                    ax >= 0,
                    ay >= 0,
                    qx as int == (ax as int) / (l as int),
                    qy as int == (ay as int) / (l as int),
            ;
            let rx: isize = if self.x >= 0 {
                qx as isize
            } else {
                -(qx as isize)
            };
            let ry: isize = if self.y >= 0 {
                qy as isize
            } else {
                -(qy as isize)
            };
            assert(rx as int == div_trunc(self@.0, l as int) && ry as int == div_trunc(
                self@.1,
                l as int,
            ));
            Vec2::new(rx, ry)
        }
    }
}

} // verus!

verus! {

/// The `+` operator on displacements is commutative, wrap and all.
pub proof fn lemma_vec2_add_comm(a: Vec2, b: Vec2)
    ensures
        vstd::std_specs::ops::AddSpec::add_spec(a, b) == vstd::std_specs::ops::AddSpec::add_spec(
            b,
            a,
        ),
{
}

/// Adding a displacement with `+` and subtracting it again with `-`
/// returns the original exactly, whenever the sum is representable.
pub proof fn lemma_vec2_sub_add_cancel(a: Vec2, b: Vec2)
    requires
        vstd::std_specs::ops::AddSpec::add_req(a, b),
    ensures
        vstd::std_specs::ops::SubSpec::sub_spec(
            vstd::std_specs::ops::AddSpec::add_spec(a, b),
            b,
        ) == a,
{
}

} // verus!
