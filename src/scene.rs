//! The scene's parts: surfaces, rays and beam sources, each with the
//! invariant that its constructor checks.
use vstd::prelude::*;
use crate::fixed::{floor_div, is_isqrt, isqrt, lemma_spec_isqrt, spec_isqrt, COORD_LIMIT, DIR_LIMIT, UNIT};
use crate::geometry::{dot, dot2, in_scene, is_unit, Vec2, UNIT_SQ_TOLERANCE};

verus! {

/// The largest refractive index, in fixed-point steps (64.0).
pub const INDEX_LIMIT: i64 = 67108864;

/// Wavelength in nanometres given to new rays and sources.
pub const DEFAULT_WAVELENGTH: i64 = 532;

/// Why a scene part was refused.
#[derive(Clone, Copy, Debug, PartialEq, Eq, Structural)]
pub enum SceneError {
    /// A point lies outside the square of `in_scene`.
    OutOfScene,
    /// The two endpoints of a surface coincide.
    Degenerate,
    /// A refractive index is not in `(0, INDEX_LIMIT]`.
    BadIndex,
    /// A reflectance or absorption is not in `[0, UNIT]`.
    BadFraction,
    /// A direction does not have length one.
    NotUnit,
    /// A beam waist is not positive, or the beam leaves the scene.
    BadWaist,
}

/// A refractive index that the scene accepts.
pub open spec fn index_ok(index: int) -> bool {
    0 < index <= INDEX_LIMIT
}

/// A fraction in `[0, 1]`, in fixed-point steps.
pub open spec fn fraction_ok(f: int) -> bool {
    0 <= f <= UNIT
}

/// An oriented line segment with the optical properties of the medium
/// beyond it.
#[derive(Clone, Copy, Debug)]
pub struct Surface {
    pub p1: Vec2,
    pub p2: Vec2,
    /// `p2 - p1`.
    pub dp: Vec2,
    /// `dp` turned a quarter turn counterclockwise and scaled to length one.
    pub normal: Vec2,
    /// The length of `dp`, rounded down.
    pub length: i64,
    pub index: i64,
    pub reflection: i64,
    pub absorption: i64,
}

/// `p2 - p1`.
pub open spec fn spec_sub(p2: Vec2, p1: Vec2) -> Vec2 {
    Vec2 { x: (p2.x - p1.x) as i64, y: (p2.y - p1.y) as i64 }
}

/// The surface that `Surface::new` builds from its arguments, or the first
/// error in the order: outside the scene, degenerate, index, fractions.
pub open spec fn spec_surface(p1: Vec2, p2: Vec2, index: i64, reflection: i64, absorption: i64) -> Result<Surface, SceneError> {
    if !in_scene(p1) || !in_scene(p2) {
        Err(SceneError::OutOfScene)
    } else if p1 == p2 {
        Err(SceneError::Degenerate)
    } else if !index_ok(index as int) {
        Err(SceneError::BadIndex)
    } else if !fraction_ok(reflection as int) || !fraction_ok(absorption as int) {
        Err(SceneError::BadFraction)
    } else {
        let dp = spec_sub(p2, p1);
        let length = spec_isqrt(dot(dp, dp));
        Ok(Surface {
            p1,
            p2,
            dp,
            normal: Vec2 {
                x: ((-dp.y) * UNIT / length) as i64,
                y: (dp.x * UNIT / length) as i64,
            },
            length: length as i64,
            index,
            reflection,
            absorption,
        })
    }
}

/// The point lies in the scene.
pub fn point_in_scene(p: Vec2) -> (r: bool)
    ensures
        r == in_scene(p),
{
    -COORD_LIMIT <= p.x && p.x <= COORD_LIMIT && -COORD_LIMIT <= p.y && p.y <= COORD_LIMIT
}

/// A component of a vector is at most its length rounded down.
pub proof fn lemma_component_le_root(c: int, o: int, len: int)
    requires
        len >= 0,
        c * c + o * o < (len + 1) * (len + 1),
    ensures
        -len <= c <= len,
{
    assert(o * o >= 0) by (nonlinear_arith);
    if c > len {
        assert(c * c >= (len + 1) * (len + 1)) by (nonlinear_arith)
            requires
                c >= len + 1,
                len >= 0,
        ;
    }
    if c < -len {
        assert(c * c >= (len + 1) * (len + 1)) by (nonlinear_arith)
            requires
                c <= -(len + 1),
                len >= 0,
        ;
    }
}

/// Scaling a number of magnitude at most `len` by `UNIT / len` stays within `UNIT`.
proof fn lemma_unit_ratio(a: int, len: int)
    requires
        len > 0,
        -len <= a <= len,
    ensures
        -UNIT <= a * UNIT / len <= UNIT,
{
    assert(-len * UNIT <= a * UNIT <= len * UNIT) by (nonlinear_arith)
        requires
            -len <= a <= len,
    ;
    vstd::arithmetic::div_mod::lemma_div_is_ordered(-len * UNIT, a * UNIT, len);
    vstd::arithmetic::div_mod::lemma_div_is_ordered(a * UNIT, len * UNIT, len);
    vstd::arithmetic::div_mod::lemma_div_by_multiple(UNIT as int, len);
    assert(len * UNIT == UNIT * len) by (nonlinear_arith);
    assert(-len * UNIT == len * (-UNIT) + 0) by (nonlinear_arith);
    vstd::arithmetic::div_mod::lemma_fundamental_div_mod_converse(-len * UNIT, len, -UNIT as int, 0);
}

impl Surface {
    /// The surface's invariant: endpoints in the scene and distinct,
    /// derived fields as documented, properties in range.
    pub open spec fn wf(self) -> bool {
        &&& in_scene(self.p1)
        &&& in_scene(self.p2)
        &&& self.p1 != self.p2
        &&& self.dp == spec_sub(self.p2, self.p1)
        &&& self.length == spec_isqrt(dot(self.dp, self.dp))
        &&& is_isqrt(dot(self.dp, self.dp), self.length as int)
        &&& self.length > 0
        &&& self.normal.x == (-self.dp.y) * UNIT / (self.length as int)
        &&& self.normal.y == self.dp.x * UNIT / (self.length as int)
        &&& index_ok(self.index as int)
        &&& fraction_ok(self.reflection as int)
        &&& fraction_ok(self.absorption as int)
    }

    /// A surface with the given optics; refused when an endpoint lies
    /// outside the scene, the endpoints coincide, or a property is out of range.
    pub fn new(p1: Vec2, p2: Vec2, index: i64, reflection: i64, absorption: i64) -> (r: Result<
        Surface,
        SceneError,
    >)
        ensures
            r == spec_surface(p1, p2, index, reflection, absorption),
            r matches Ok(s) ==> s.wf(),
    {
        if !point_in_scene(p1) || !point_in_scene(p2) {
            return Err(SceneError::OutOfScene);
        }
        if p1.x == p2.x && p1.y == p2.y {
            return Err(SceneError::Degenerate);
        }
        if index <= 0 || index > INDEX_LIMIT {
            return Err(SceneError::BadIndex);
        }
        if reflection < 0 || reflection > UNIT || absorption < 0 || absorption > UNIT {
            return Err(SceneError::BadFraction);
        }
        let dp = Vec2 { x: p2.x - p1.x, y: p2.y - p1.y };
        let sq = dot2(dp, dp);
        proof {
            assert(sq > 0) by (nonlinear_arith)
                requires
                    sq == dp.x * dp.x + dp.y * dp.y,
                    dp.x != 0 || dp.y != 0,
            ;
            assert(sq <= 0x8_0000_0000_0000_0000) by (nonlinear_arith)
                requires
                    sq == dp.x * dp.x + dp.y * dp.y,
                    -0x2_0000_0000 <= dp.x <= 0x2_0000_0000,
                    -0x2_0000_0000 <= dp.y <= 0x2_0000_0000,
            ;
        }
        let len = isqrt(sq as u128);
        proof {
            assert(len > 0) by (nonlinear_arith)
                requires
                    sq < (len + 1) * (len + 1),
                    sq >= 1,
                    len >= 0,
            ;
            assert(len <= 0x4_0000_0000) by (nonlinear_arith)
                requires
                    len * len <= sq,
                    sq <= 0x8_0000_0000_0000_0000,
                    len >= 0,
            ;
        }
        let length = len as i64;
        let nx = floor_div(-(dp.y as i128) * (UNIT as i128), length as i128);
        let ny = floor_div((dp.x as i128) * (UNIT as i128), length as i128);
        proof {
            lemma_component_le_root(dp.y as int, dp.x as int, len as int);
            lemma_component_le_root(dp.x as int, dp.y as int, len as int);
            lemma_unit_ratio(-dp.y, length as int);
            lemma_unit_ratio(dp.x as int, length as int);
            lemma_spec_isqrt(sq as int, len as int);
        }
        Ok(
            Surface {
                p1,
                p2,
                dp,
                normal: Vec2 { x: nx as i64, y: ny as i64 },
                length,
                index,
                reflection,
                absorption,
            },
        )
    }

    /// A clear refracting surface of the given index.
    pub fn glass(p1: Vec2, p2: Vec2, index: i64) -> (r: Result<Surface, SceneError>)
        ensures
            r == spec_surface(p1, p2, index, 0, 0),
    {
        Surface::new(p1, p2, index, 0, 0)
    }

    /// A fully absorbing surface.
    pub fn blocker(p1: Vec2, p2: Vec2) -> (r: Result<Surface, SceneError>)
        ensures
            r == spec_surface(p1, p2, UNIT, 0, UNIT),
    {
        Surface::new(p1, p2, UNIT, 0, UNIT)
    }
}

/// `a * UNIT / m`, rounded toward zero.
pub open spec fn trunc_scale(a: int, m: int) -> int {
    if a >= 0 {
        a * UNIT / m
    } else {
        -((-a) * UNIT / m)
    }
}

/// The direction of `(x, y)` scaled to length `UNIT`, each component rounded
/// toward zero; `None` for the zero vector, and where rounding leaves the
/// result outside the tolerance of `is_unit`.
pub open spec fn spec_unit_direction(x: int, y: int) -> Option<Vec2> {
    let m = spec_isqrt(x * x + y * y);
    if m == 0 {
        None
    } else {
        let l = Vec2 { x: trunc_scale(x, m) as i64, y: trunc_scale(y, m) as i64 };
        if is_unit(l) {
            Some(l)
        } else {
            None
        }
    }
}

/// `(m * q)^2 >= (a * UNIT)^2 - 2 * a * UNIT * m` where `q` is `a * UNIT / m`.
proof fn lemma_scaled_square_lower(a: int, m: int, q: int)
    requires
        a >= 0,
        m > 0,
        m * q <= a * UNIT < m * q + m,
        q >= 0,
    ensures
        (m * q) * (m * q) >= (a * UNIT) * (a * UNIT) - 2 * (a * UNIT) * m,
{
    let b = a * UNIT;
    let mq = m * q;
    if b - m >= 0 {
        assert(mq * mq >= (b - m) * (b - m)) by (nonlinear_arith)
            requires
                mq > b - m,
                b - m >= 0,
        ;
        assert((b - m) * (b - m) == b * b - 2 * b * m + m * m) by (nonlinear_arith);
        assert(m * m >= 0) by (nonlinear_arith);
        assert(mq * mq >= b * b - 2 * b * m) by (nonlinear_arith)
            requires
                mq * mq >= (b - m) * (b - m),
                (b - m) * (b - m) == b * b - 2 * b * m + m * m,
                m * m >= 0,
        ;
    } else {
        assert(b * b <= b * m) by (nonlinear_arith)
            requires
                0 <= b < m,
        ;
        assert(b * m >= 0) by (nonlinear_arith)
            requires
                b >= 0,
                m > 0,
        ;
        assert(mq * mq >= 0) by (nonlinear_arith);
        assert(mq * mq >= b * b - 2 * b * m) by (nonlinear_arith)
            requires
                b * b <= b * m,
                b * m >= 0,
                mq * mq >= 0,
        ;
    }
    assert((m * q) * (m * q) >= (a * UNIT) * (a * UNIT) - 2 * (a * UNIT) * m) by (nonlinear_arith)
        requires
            mq == m * q,
            b == a * UNIT,
            mq * mq >= b * b - 2 * b * m,
    ;
}

/// Scaling a vector of squared length `n >= 2^36` by `UNIT / isqrt(n)`,
/// each component rounded toward zero, gives a unit vector.
proof fn lemma_normalized_unit(ux: int, uy: int, m: int, qx: int, qy: int)
    requires
        ux >= 0,
        uy >= 0,
        m * m <= ux * ux + uy * uy < (m + 1) * (m + 1),
        ux * ux + uy * uy >= 0x10_0000_0000,
        m >= 0,
        m * qx <= ux * UNIT < m * qx + m,
        m * qy <= uy * UNIT < m * qy + m,
        0 <= qx <= UNIT,
        0 <= qy <= UNIT,
    ensures
        UNIT * UNIT - UNIT_SQ_TOLERANCE <= qx * qx + qy * qy <= UNIT * UNIT + UNIT_SQ_TOLERANCE,
{
    let n = ux * ux + uy * uy;
    let sq = qx * qx + qy * qy;
    let uu = UNIT * UNIT;
    assert(m >= 0x4_0000) by (nonlinear_arith)
        requires
            n < (m + 1) * (m + 1),
            n >= 0x10_0000_0000,
            m >= 0,
    ;
    lemma_component_le_root(ux, uy, m);
    lemma_component_le_root(uy, ux, m);
    // upper bound
    assert(m * m * sq <= uu * n) by (nonlinear_arith)
        requires
            0 <= m * qx <= ux * UNIT,
            0 <= m * qy <= uy * UNIT,
            sq == qx * qx + qy * qy,
            uu == UNIT * UNIT,
            n == ux * ux + uy * uy,
    ;
    assert(uu * n < uu * m * m + uu * (2 * m + 1)) by (nonlinear_arith)
        requires
            n < (m + 1) * (m + 1),
            uu > 0,
    ;
    assert(uu * (2 * m + 1) <= UNIT_SQ_TOLERANCE * (m * m)) by (nonlinear_arith)
        requires
            m >= 0x4_0000,
            uu == 0x100_0000_0000,
            UNIT_SQ_TOLERANCE == 0x100_0000,
    ;
    assert(sq <= uu + UNIT_SQ_TOLERANCE) by (nonlinear_arith)
        requires
            m * m * sq < uu * m * m + UNIT_SQ_TOLERANCE * (m * m),
            m > 0,
    ;
    // lower bound
    lemma_scaled_square_lower(ux, m, qx);
    lemma_scaled_square_lower(uy, m, qy);
    let (px, py, bx, by) = (m * qx, m * qy, ux * UNIT, uy * UNIT);
    assert(m * m * sq == px * px + py * py) by (nonlinear_arith)
        requires
            px == m * qx,
            py == m * qy,
            sq == qx * qx + qy * qy,
    ;
    assert(uu * n == bx * bx + by * by) by (nonlinear_arith)
        requires
            bx == ux * UNIT,
            by == uy * UNIT,
            uu == UNIT * UNIT,
            n == ux * ux + uy * uy,
    ;
    assert(2 * bx * m + 2 * by * m == 2 * UNIT * m * (ux + uy)) by (nonlinear_arith)
        requires
            bx == ux * UNIT,
            by == uy * UNIT,
    ;
    assert(m * m * sq >= uu * n - 2 * UNIT * m * (ux + uy));
    assert(uu * n - 2 * UNIT * m * (ux + uy) >= uu * (m * m) - 4 * UNIT * (m * m)) by (nonlinear_arith)
        requires
            m * m <= n,
            ux + uy <= 2 * m,
            uu > 0,
            m > 0,
    ;
    assert(sq >= uu - 4 * UNIT) by (nonlinear_arith)
        requires
            m * m * sq >= uu * (m * m) - 4 * UNIT * (m * m),
            m > 0,
    ;
}

/// A vector of squared length at least `2^36` has a unit direction.
pub proof fn lemma_unit_direction_some(x: int, y: int)
    requires
        x * x + y * y >= 0x10_0000_0000,
    ensures
        spec_unit_direction(x, y) is Some,
{
    let n = x * x + y * y;
    let (ux, uy) = (if x >= 0 { x } else { -x }, if y >= 0 { y } else { -y });
    assert(ux * ux == x * x && uy * uy == y * y) by (nonlinear_arith)
        requires
            ux == x || ux == -x,
            uy == y || uy == -y,
    ;
    crate::fixed::lemma_isqrt_exists(n);
    let m = spec_isqrt(n);
    assert(m > 0) by (nonlinear_arith)
        requires
            n < (m + 1) * (m + 1),
            n >= 0x10_0000_0000,
            m >= 0,
    ;
    lemma_component_le_root(ux, uy, m);
    lemma_component_le_root(uy, ux, m);
    lemma_unit_ratio(ux, m);
    lemma_unit_ratio(uy, m);
    let (qx, qy) = (ux * UNIT / m, uy * UNIT / m);
    vstd::arithmetic::div_mod::lemma_fundamental_div_mod(ux * UNIT, m);
    vstd::arithmetic::div_mod::lemma_fundamental_div_mod(uy * UNIT, m);
    lemma_normalized_unit(ux, uy, m, qx, qy);
    let l = Vec2 { x: trunc_scale(x, m) as i64, y: trunc_scale(y, m) as i64 };
    assert(l.x * l.x == qx * qx) by (nonlinear_arith)
        requires
            l.x == qx || l.x == -qx,
    ;
    assert(l.y * l.y == qy * qy) by (nonlinear_arith)
        requires
            l.y == qy || l.y == -qy,
    ;
    assert(is_unit(l));
}

/// The direction is a unit vector.
pub fn check_unit(l: Vec2) -> (r: bool)
    ensures
        r == is_unit(l),
{
    if l.x < -DIR_LIMIT || l.x > DIR_LIMIT || l.y < -DIR_LIMIT || l.y > DIR_LIMIT {
        return false;
    }
    let sq = dot2(l, l);
    let target: i128 = 0x100_0000_0000;
    assert(target == UNIT * UNIT);
    target - (UNIT_SQ_TOLERANCE as i128) <= sq && sq <= target + (UNIT_SQ_TOLERANCE as i128)
}

/// `(x, y)` scaled to a unit vector (see `spec_unit_direction`); found for
/// every vector of squared length at least `2^36`, and never for the zero vector.
pub fn unit_direction(x: i128, y: i128) -> (r: Option<Vec2>)
    requires
        -0x1000_0000_0000_0000 <= x <= 0x1000_0000_0000_0000,
        -0x1000_0000_0000_0000 <= y <= 0x1000_0000_0000_0000,
    ensures
        r == spec_unit_direction(x as int, y as int),
        r matches Some(l) ==> is_unit(l),
        x * x + y * y >= 0x10_0000_0000 ==> r is Some,
{
    let ux: u128 = if x >= 0 { x as u128 } else { (-x) as u128 };
    let uy: u128 = if y >= 0 { y as u128 } else { (-y) as u128 };
    proof {
        assert(ux * ux <= 0x100_0000_0000_0000_0000_0000_0000_0000) by (nonlinear_arith)
            requires
                ux <= 0x1000_0000_0000_0000,
        ;
        assert(uy * uy <= 0x100_0000_0000_0000_0000_0000_0000_0000) by (nonlinear_arith)
            requires
                uy <= 0x1000_0000_0000_0000,
        ;
        assert(ux * ux == x * x) by (nonlinear_arith)
            requires
                ux == x || ux == -x,
        ;
        assert(uy * uy == y * y) by (nonlinear_arith)
            requires
                uy == y || uy == -y,
        ;
    }
    let n: u128 = ux * ux + uy * uy;
    let m = isqrt(n);
    if m == 0 {
        proof {
            assert(is_isqrt(n as int, 0));
            assert(n < (0int + 1) * (0int + 1));
            assert(n < 1) by (nonlinear_arith)
                requires
                    n < (0int + 1) * (0int + 1),
            ;
        }
        return None;
    }
    proof {
        lemma_component_le_root(ux as int, uy as int, m as int);
        lemma_component_le_root(uy as int, ux as int, m as int);
        lemma_unit_ratio(ux as int, m as int);
        lemma_unit_ratio(uy as int, m as int);
    }
    let qx: u128 = ux * (UNIT as u128) / m;
    let qy: u128 = uy * (UNIT as u128) / m;
    let lx: i64 = if x >= 0 { qx as i64 } else { -(qx as i64) };
    let ly: i64 = if y >= 0 { qy as i64 } else { -(qy as i64) };
    let l = Vec2 { x: lx, y: ly };
    proof {
        if n >= 0x10_0000_0000 {
            lemma_unit_direction_some(x as int, y as int);
        }
    }
    if check_unit(l) {
        Some(l)
    } else {
        None
    }
}

/// A directed half-line with its intensity and the medium it travels in.
#[derive(Clone, Copy, Debug)]
pub struct Ray {
    /// Origin.
    pub p: Vec2,
    /// Unit direction.
    pub l: Vec2,
    /// Intensity, 1.0 at emission.
    pub i: i64,
    /// Refractive index of the medium around the ray.
    pub index: i64,
    /// Wavelength in nanometres.
    pub w: i64,
}

impl Ray {
    /// The ray's invariant.
    pub open spec fn wf(self) -> bool {
        &&& in_scene(self.p)
        &&& is_unit(self.l)
        &&& fraction_ok(self.i as int)
        &&& index_ok(self.index as int)
    }

    /// A ray of full intensity at the default wavelength.
    pub fn new(p: Vec2, l: Vec2, index: i64) -> (r: Ray)
        requires
            in_scene(p),
            is_unit(l),
            index_ok(index as int),
        ensures
            r == (Ray { p, l, i: UNIT, index, w: DEFAULT_WAVELENGTH }),
            r.wf(),
    {
        Ray { p, l, i: UNIT, index, w: DEFAULT_WAVELENGTH }
    }
}

/// An emitter of parallel rays spread across its waist.
#[derive(Clone, Copy, Debug)]
pub struct BeamSource {
    pub pos: Vec2,
    /// Unit direction of emission.
    pub direction: Vec2,
    /// Width of the beam across its direction.
    pub waist: i64,
    /// Wavelength in nanometres.
    pub w: i64,
    /// Refractive index of the medium around the source.
    pub index: i64,
}

/// The whole waist around `pos` lies in the scene.
pub open spec fn beam_fits(pos: Vec2, waist: int) -> bool {
    &&& 0 < waist
    &&& -COORD_LIMIT + 2 * waist + 2 <= pos.x <= COORD_LIMIT - 2 * waist - 2
    &&& -COORD_LIMIT + 2 * waist + 2 <= pos.y <= COORD_LIMIT - 2 * waist - 2
}

/// The source that `BeamSource::new` builds, or the first error in the order:
/// position, direction, waist.
pub open spec fn spec_beam_source(pos: Vec2, direction: Vec2, waist: i64) -> Result<BeamSource, SceneError> {
    if !in_scene(pos) {
        Err(SceneError::OutOfScene)
    } else if !is_unit(direction) {
        Err(SceneError::NotUnit)
    } else if !beam_fits(pos, waist as int) {
        Err(SceneError::BadWaist)
    } else {
        Ok(BeamSource { pos, direction, waist, w: DEFAULT_WAVELENGTH, index: UNIT })
    }
}

impl BeamSource {
    /// The source's invariant.
    pub open spec fn wf(self) -> bool {
        &&& in_scene(self.pos)
        &&& is_unit(self.direction)
        &&& beam_fits(self.pos, self.waist as int)
        &&& index_ok(self.index as int)
    }

    /// A source in air at the default wavelength.
    pub fn new(pos: Vec2, direction: Vec2, waist: i64) -> (r: Result<BeamSource, SceneError>)
        ensures
            r == spec_beam_source(pos, direction, waist),
            r matches Ok(s) ==> s.wf(),
    {
        if !point_in_scene(pos) {
            return Err(SceneError::OutOfScene);
        }
        if !check_unit(direction) {
            return Err(SceneError::NotUnit);
        }
        if waist <= 0 || waist > COORD_LIMIT {
            return Err(SceneError::BadWaist);
        }
        let margin = 2 * waist + 2;
        if pos.x < -COORD_LIMIT + margin || pos.x > COORD_LIMIT - margin
            || pos.y < -COORD_LIMIT + margin || pos.y > COORD_LIMIT - margin {
            return Err(SceneError::BadWaist);
        }
        Ok(BeamSource { pos, direction, waist, w: DEFAULT_WAVELENGTH, index: UNIT })
    }
}

/// The length of a surface fits in 35 bits.
pub proof fn lemma_length_bound(s: Surface)
    requires
        s.wf(),
    ensures
        0 < s.length <= 0x4_0000_0000,
{
    let sq = dot(s.dp, s.dp);
    let len = s.length as int;
    assert(sq <= 0x8_0000_0000_0000_0000) by (nonlinear_arith)
        requires
            sq == s.dp.x * s.dp.x + s.dp.y * s.dp.y,
            -0x2_0000_0000 <= s.dp.x <= 0x2_0000_0000,
            -0x2_0000_0000 <= s.dp.y <= 0x2_0000_0000,
    ;
    assert(len <= 0x4_0000_0000) by (nonlinear_arith)
        requires
            len * len <= sq,
            sq <= 0x8_0000_0000_0000_0000,
            len >= 0,
    ;
}

} // verus!
