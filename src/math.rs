use vstd::prelude::*;
use crate::position::{GraphPosition, COST_SCALE, pack_bound};

verus! {

pub open spec fn abs_diff(a: int, b: int) -> nat {
    if a >= b {
        (a - b) as nat
    } else {
        (b - a) as nat
    }
}

/// Offsets an `i32` coordinate by 2^31, giving a number below 2^32.
pub open spec fn unsigned_of(v: i32) -> nat {
    (v + 0x8000_0000) as nat
}

fn unsigned_coord(v: i32) -> (r: u128)
    ensures
        r == unsigned_of(v),
        r < 0x1_0000_0000,
{
    (v as i64 + 0x8000_0000i64) as u128
}

fn coord_distance(a: i32, b: i32) -> (r: u64)
    ensures
        r == abs_diff(a as int, b as int),
        r < 0x1_0000_0000,
{
    if a >= b {
        (a as i64 - b as i64) as u64
    } else {
        (b as i64 - a as i64) as u64
    }
}

pub proof fn lemma_digits_unique(a0: nat, a1: nat, b0: nat, b1: nat, m: nat)
    requires
        m > 0,
        a0 < m,
        b0 < m,
        a0 + a1 * m == b0 + b1 * m,
    ensures
        a0 == b0,
        a1 == b1,
{
    assert(a0 == b0 && a1 == b1) by (nonlinear_arith)
        requires
            m > 0,
            a0 < m,
            b0 < m,
            a0 + a1 * m == b0 + b1 * m,
    {
        if a1 < b1 {
            assert(a1 * m + m <= b1 * m);
        } else if a1 > b1 {
            assert(b1 * m + m <= a1 * m);
        }
    }
}

/// A two-dimensional integer position.
#[derive(Debug, Copy, Clone, PartialEq, Eq, Structural, Hash, PartialOrd, Ord)]
pub struct Vector2i {
    pub x: i32,
    pub y: i32,
}

impl Vector2i {
    pub fn new(x: i32, y: i32) -> (r: Vector2i)
        ensures
            r.x == x,
            r.y == y,
    {
        Vector2i { x, y }
    }

    pub fn zero() -> (r: Vector2i)
        ensures
            r.x == 0,
            r.y == 0,
    {
        Vector2i { x: 0, y: 0 }
    }
}

impl GraphPosition for Vector2i {
    /// Componentwise sum, wrapping at the bounds of `i32`.
    open spec fn spec_offset(self, offset: Self) -> Self {
        Vector2i { x: self.x.wrapping_add(offset.x), y: self.y.wrapping_add(offset.y) }
    }

    /// Manhattan distance, in hundredths of a cost unit.
    open spec fn spec_distance(self, other: Self) -> nat {
        COST_SCALE as nat * (abs_diff(self.x as int, other.x as int) + abs_diff(
            self.y as int,
            other.y as int,
        ))
    }

    open spec fn spec_pack(self) -> nat {
        unsigned_of(self.x) + unsigned_of(self.y) * 0x1_0000_0000
    }

    fn offset_by(self, offset: Self) -> (r: Self) {
        Vector2i { x: self.x.wrapping_add(offset.x), y: self.y.wrapping_add(offset.y) }
    }

    fn distance(a: &Self, b: &Self) -> (r: u64) {
        COST_SCALE * (coord_distance(a.x, b.x) + coord_distance(a.y, b.y))
    }

    fn same_as(&self, other: &Self) -> (r: bool) {
        self.x == other.x && self.y == other.y
    }

    fn pack(&self) -> (r: u128) {
        let lo = unsigned_coord(self.x);
        let hi = unsigned_coord(self.y);
        assert(lo + hi * 0x1_0000_0000 < pack_bound()) by (nonlinear_arith)
            requires
                lo < 0x1_0000_0000,
                hi < 0x1_0000_0000,
        ;
        lo + hi * 0x1_0000_0000
    }

    proof fn lemma_pack_bound(self) {
        let lo = unsigned_of(self.x);
        let hi = unsigned_of(self.y);
        assert(lo + hi * 0x1_0000_0000 < pack_bound()) by (nonlinear_arith)
            requires
                lo < 0x1_0000_0000,
                hi < 0x1_0000_0000,
        ;
    }

    proof fn lemma_pack_injective(a: Self, b: Self) {
        lemma_digits_unique(
            unsigned_of(a.x),
            unsigned_of(a.y),
            unsigned_of(b.x),
            unsigned_of(b.y),
            0x1_0000_0000,
        );
    }

    proof fn lemma_distance_symmetric(a: Self, b: Self) {
    }
}

/// A three-dimensional integer position.
#[derive(Debug, Copy, Clone, PartialEq, Eq, Structural, Hash, PartialOrd, Ord)]
pub struct Vector3i {
    pub x: i32,
    pub y: i32,
    pub z: i32,
}

impl Vector3i {
    pub fn new(x: i32, y: i32, z: i32) -> (r: Vector3i)
        ensures
            r.x == x,
            r.y == y,
            r.z == z,
    {
        Vector3i { x, y, z }
    }

    pub fn zero() -> (r: Vector3i)
        ensures
            r.x == 0,
            r.y == 0,
            r.z == 0,
    {
        Vector3i { x: 0, y: 0, z: 0 }
    }

    /// Sum of the squared coordinate differences.
    pub fn distance_squared(&self, other: &Vector3i) -> (r: u128)
        ensures
            r == abs_diff(self.x as int, other.x as int) * abs_diff(self.x as int, other.x as int)
                + abs_diff(self.y as int, other.y as int) * abs_diff(self.y as int, other.y as int)
                + abs_diff(self.z as int, other.z as int) * abs_diff(self.z as int, other.z as int),
    {
        let xd = coord_distance(self.x, other.x) as u128;
        let yd = coord_distance(self.y, other.y) as u128;
        let zd = coord_distance(self.z, other.z) as u128;
        assert(xd * xd < 0x1_0000_0000_0000_0000) by (nonlinear_arith)
            requires
                xd < 0x1_0000_0000,
        ;
        assert(yd * yd < 0x1_0000_0000_0000_0000) by (nonlinear_arith)
            requires
                yd < 0x1_0000_0000,
        ;
        assert(zd * zd < 0x1_0000_0000_0000_0000) by (nonlinear_arith)
            requires
                zd < 0x1_0000_0000,
        ;
        xd * xd + yd * yd + zd * zd
    }
}

impl GraphPosition for Vector3i {
    /// Componentwise sum, wrapping at the bounds of `i32`.
    open spec fn spec_offset(self, offset: Self) -> Self {
        Vector3i {
            x: self.x.wrapping_add(offset.x),
            y: self.y.wrapping_add(offset.y),
            z: self.z.wrapping_add(offset.z),
        }
    }

    /// Manhattan distance, in hundredths of a cost unit.
    open spec fn spec_distance(self, other: Self) -> nat {
        COST_SCALE as nat * (abs_diff(self.x as int, other.x as int) + abs_diff(
            self.y as int,
            other.y as int,
        ) + abs_diff(self.z as int, other.z as int))
    }

    open spec fn spec_pack(self) -> nat {
        unsigned_of(self.x) + (unsigned_of(self.y) + unsigned_of(self.z) * 0x1_0000_0000)
            * 0x1_0000_0000
    }

    fn offset_by(self, offset: Self) -> (r: Self) {
        Vector3i {
            x: self.x.wrapping_add(offset.x),
            y: self.y.wrapping_add(offset.y),
            z: self.z.wrapping_add(offset.z),
        }
    }

    fn distance(a: &Self, b: &Self) -> (r: u64) {
        COST_SCALE * (coord_distance(a.x, b.x) + coord_distance(a.y, b.y) + coord_distance(
            a.z,
            b.z,
        ))
    }

    fn same_as(&self, other: &Self) -> (r: bool) {
        self.x == other.x && self.y == other.y && self.z == other.z
    }

    fn pack(&self) -> (r: u128) {
        let x = unsigned_coord(self.x);
        let y = unsigned_coord(self.y);
        let z = unsigned_coord(self.z);
        assert(y + z * 0x1_0000_0000 < 0x1_0000_0000_0000_0000) by (nonlinear_arith)
            requires
                y < 0x1_0000_0000,
                z < 0x1_0000_0000,
        ;
        let hi = y + z * 0x1_0000_0000;
        assert(x + hi * 0x1_0000_0000 < pack_bound()) by (nonlinear_arith)
            requires
                x < 0x1_0000_0000,
                hi < 0x1_0000_0000_0000_0000,
        ;
        x + hi * 0x1_0000_0000
    }

    proof fn lemma_pack_bound(self) {
        let x = unsigned_of(self.x);
        let y = unsigned_of(self.y);
        let z = unsigned_of(self.z);
        assert(y + z * 0x1_0000_0000 < 0x1_0000_0000_0000_0000) by (nonlinear_arith)
            requires
                y < 0x1_0000_0000,
                z < 0x1_0000_0000,
        ;
        let hi = y + z * 0x1_0000_0000;
        assert(x + hi * 0x1_0000_0000 < pack_bound()) by (nonlinear_arith)
            requires
                x < 0x1_0000_0000,
                hi < 0x1_0000_0000_0000_0000,
        ;
    }

    proof fn lemma_pack_injective(a: Self, b: Self) {
        let ha = unsigned_of(a.y) + unsigned_of(a.z) * 0x1_0000_0000;
        let hb = unsigned_of(b.y) + unsigned_of(b.z) * 0x1_0000_0000;
        lemma_digits_unique(unsigned_of(a.x), ha, unsigned_of(b.x), hb, 0x1_0000_0000);
        lemma_digits_unique(
            unsigned_of(a.y),
            unsigned_of(a.z),
            unsigned_of(b.y),
            unsigned_of(b.z),
            0x1_0000_0000,
        );
    }

    proof fn lemma_distance_symmetric(a: Self, b: Self) {
    }
}

} // verus!
