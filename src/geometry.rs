//! Plane vectors in fixed-point steps, and the exact products on them.
use vstd::prelude::*;
use crate::fixed::{COORD_LIMIT, DIR_LIMIT, UNIT};

verus! {

/// A point or a direction of the plane, in fixed-point steps.
#[derive(Clone, Copy, Debug, PartialEq, Eq, Structural)]
pub struct Vec2 {
    pub x: i64,
    pub y: i64,
}

/// Dot product.
pub open spec fn dot(a: Vec2, b: Vec2) -> int {
    a.x * b.x + a.y * b.y
}

/// Cross product: `a.x * b.y - b.x * a.y`.
pub open spec fn cross(a: Vec2, b: Vec2) -> int {
    a.x * b.y - b.x * a.y
}

/// The point lies in the square that the scene may occupy.
pub open spec fn in_scene(p: Vec2) -> bool {
    -COORD_LIMIT <= p.x <= COORD_LIMIT && -COORD_LIMIT <= p.y <= COORD_LIMIT
}

/// Each component of the direction is small enough for the products below.
pub open spec fn dir_bounded(l: Vec2) -> bool {
    -DIR_LIMIT <= l.x <= DIR_LIMIT && -DIR_LIMIT <= l.y <= DIR_LIMIT
}

/// The largest distance of a squared magnitude from `UNIT * UNIT` that
/// still counts as a unit vector (a relative error below 1e-5 of the length).
pub const UNIT_SQ_TOLERANCE: i64 = 16777216;

/// The direction has length one within the fixed-point tolerance.
pub open spec fn is_unit(l: Vec2) -> bool {
    dir_bounded(l) && UNIT * UNIT - UNIT_SQ_TOLERANCE <= dot(l, l) <= UNIT * UNIT + UNIT_SQ_TOLERANCE
}

impl Vec2 {
    pub fn new(x: i64, y: i64) -> (r: Vec2)
        ensures
            r.x == x,
            r.y == y,
    {
        Vec2 { x, y }
    }
}

/// The two-dimensional cross product of `a` and `b`.
pub fn cross2(a: Vec2, b: Vec2) -> (r: i128)
    requires
        a.x > i64::MIN,
        a.y > i64::MIN,
        b.x > i64::MIN,
        b.y > i64::MIN,
    ensures
        r == cross(a, b),
{
    let (ax, ay, bx, by) = (a.x as i128, a.y as i128, b.x as i128, b.y as i128);
    proof {
        lemma_product_bound(ax as int, by as int);
        lemma_product_bound(bx as int, ay as int);
    }
    ax * by - bx * ay
}

/// Dot product of two vectors whose components exceed `i64::MIN`.
pub fn dot2(a: Vec2, b: Vec2) -> (r: i128)
    requires
        a.x > i64::MIN,
        a.y > i64::MIN,
        b.x > i64::MIN,
        b.y > i64::MIN,
    ensures
        r == dot(a, b),
{
    let (ax, ay, bx, by) = (a.x as i128, a.y as i128, b.x as i128, b.y as i128);
    proof {
        lemma_product_bound(ax as int, bx as int);
        lemma_product_bound(ay as int, by as int);
    }
    ax * bx + ay * by
}

proof fn lemma_product_bound(a: int, b: int)
    requires
        -0x7fff_ffff_ffff_ffff <= a <= 0x7fff_ffff_ffff_ffff,
        -0x7fff_ffff_ffff_ffff <= b <= 0x7fff_ffff_ffff_ffff,
    ensures
        -0x3fff_ffff_ffff_ffff_0000_0000_0000_0001 <= a * b <= 0x3fff_ffff_ffff_ffff_0000_0000_0000_0001,
{
    assert(-0x3fff_ffff_ffff_ffff_0000_0000_0000_0001 <= a * b <= 0x3fff_ffff_ffff_ffff_0000_0000_0000_0001)
        by (nonlinear_arith)
        requires
            -0x7fff_ffff_ffff_ffff <= a <= 0x7fff_ffff_ffff_ffff,
            -0x7fff_ffff_ffff_ffff <= b <= 0x7fff_ffff_ffff_ffff,
    ;
}

/// `|a * b| <= ka * kb` whenever `|a| <= ka` and `|b| <= kb`.
pub proof fn lemma_mul_bound(a: int, b: int, ka: int, kb: int)
    requires
        -ka <= a <= ka,
        -kb <= b <= kb,
    ensures
        -(ka * kb) <= a * b <= ka * kb,
{
    assert(-(ka * kb) <= a * b <= ka * kb) by (nonlinear_arith)
        requires
            -ka <= a <= ka,
            -kb <= b <= kb,
    ;
}

} // verus!
