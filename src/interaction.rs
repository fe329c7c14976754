//! What happens where a ray meets a surface: absorption, total internal
//! reflection, or refraction by Snell's law.
use vstd::prelude::*;
use crate::fixed::{floor_div, isqrt, spec_isqrt, UNIT, DIR_LIMIT};
use crate::geometry::{dot, dot2, in_scene, lemma_mul_bound, Vec2};
use crate::kernel::{crossing_bounded, Crossing};
use crate::scene::{spec_unit_direction, unit_direction, Ray, Surface};

verus! {

/// The outcome of a ray meeting a surface.
#[derive(Clone, Copy, Debug)]
pub enum Interaction {
    /// The surface absorbs the ray; the branch ends at the hit point.
    Absorbed,
    /// No refracted ray exists (grazing refraction included); the branch ends.
    TotalInternalReflection,
    /// The ray continues beyond the surface as this child ray.
    Refracted(Ray),
}

/// The point of the surface at parameter `s_num / den`, rounded down.
pub open spec fn hit_point(s: Surface, c: Crossing) -> Vec2 {
    Vec2 {
        x: (s.p1.x + c.s_num * s.dp.x / (c.den as int)) as i64,
        y: (s.p1.y + c.s_num * s.dp.y / (c.den as int)) as i64,
    }
}

/// The surface's normal, at the length of `dp`, turned to face the ray:
/// its dot product with the ray's direction is not positive.
pub open spec fn facing_normal(ray: Ray, s: Surface) -> Vec2 {
    if (-s.dp.y) * ray.l.x + s.dp.x * ray.l.y > 0 {
        Vec2 { x: s.dp.y, y: (-s.dp.x) as i64 }
    } else {
        Vec2 { x: (-s.dp.y) as i64, y: s.dp.x }
    }
}

/// Sine of the refracted angle in fixed-point steps, signed along `dp`:
/// the incident sine `l · dp / length` times `ray.index / s.index`, rounded down.
pub open spec fn sin_refracted(ray: Ray, s: Surface) -> int {
    dot(ray.l, s.dp) * ray.index / (s.length * s.index)
}

/// Cosine of the refracted angle in fixed-point steps, rounded down.
pub open spec fn cos_refracted(st: int) -> int {
    spec_isqrt(UNIT * UNIT - st * st)
}

/// The refracted direction before scaling: the tangential part `st` along
/// `dp` and the normal part `ct` away from the ray's side.
pub open spec fn refracted_raw(ray: Ray, s: Surface) -> (int, int) {
    let st = sin_refracted(ray, s);
    let ct = cos_refracted(st);
    let n = facing_normal(ray, s);
    (st * s.dp.x - ct * n.x, st * s.dp.y - ct * n.y)
}

/// Intensity after the surface: reduced by its reflectance, rounded down.
pub open spec fn attenuated(i: int, reflection: int) -> int {
    i * (UNIT - reflection) / (UNIT as int)
}

/// The outcome of `ray` meeting `s` at the crossing `c`.
pub open spec fn spec_interact(ray: Ray, s: Surface, c: Crossing) -> Interaction {
    if s.absorption >= UNIT {
        Interaction::Absorbed
    } else {
        let st = sin_refracted(ray, s);
        if st <= -UNIT || st >= UNIT {
            Interaction::TotalInternalReflection
        } else {
            let d = refracted_raw(ray, s);
            Interaction::Refracted(
                Ray {
                    p: hit_point(s, c),
                    l: spec_unit_direction(d.0, d.1).unwrap(),
                    i: attenuated(ray.i as int, s.reflection as int) as i64,
                    index: s.index,
                    w: ray.w,
                },
            )
        }
    }
}

/// `(p + q)^2 == p^2 + 2 p q + q^2`.
proof fn lemma_square_sum(p: int, q: int)
    ensures
        (p + q) * (p + q) == p * p + 2 * (p * q) + q * q,
{
    vstd::arithmetic::mul::lemma_mul_is_distributive_add(p + q, p, q);
    vstd::arithmetic::mul::lemma_mul_is_distributive_add_other_way(p, p, q);
    vstd::arithmetic::mul::lemma_mul_is_distributive_add_other_way(q, p, q);
    vstd::arithmetic::mul::lemma_mul_is_commutative(p, q);
}

/// `(a x + b y)^2 + (a y - b x)^2 == (a^2 + b^2) (x^2 + y^2)`.
proof fn lemma_rotation_norm(a: int, b: int, x: int, y: int)
    ensures
        (a * x + b * y) * (a * x + b * y) + (a * y - b * x) * (a * y - b * x) == (a * a + b * b) * (
        x * x + y * y),
{
    lemma_square_sum(a * x, b * y);
    lemma_square_sum(a * y, -(b * x));
    assert((a * x) * (b * y) == (a * y) * (b * x)) by (nonlinear_arith);
    assert((a * x) * (a * x) == (a * a) * (x * x)) by (nonlinear_arith);
    assert((b * y) * (b * y) == (b * b) * (y * y)) by (nonlinear_arith);
    assert((a * y) * (a * y) == (a * a) * (y * y)) by (nonlinear_arith);
    assert((-(b * x)) * (-(b * x)) == (b * b) * (x * x)) by (nonlinear_arith);
    assert((a * y) * (-(b * x)) == -((a * y) * (b * x))) by (nonlinear_arith);
    vstd::arithmetic::mul::lemma_mul_is_distributive_add(a * a + b * b, x * x, y * y);
    vstd::arithmetic::mul::lemma_mul_is_distributive_add_other_way(x * x, a * a, b * b);
    vstd::arithmetic::mul::lemma_mul_is_distributive_add_other_way(y * y, a * a, b * b);
    vstd::arithmetic::mul::lemma_mul_is_commutative(x * x, a * a);
    vstd::arithmetic::mul::lemma_mul_is_commutative(x * x, b * b);
    vstd::arithmetic::mul::lemma_mul_is_commutative(y * y, a * a);
    vstd::arithmetic::mul::lemma_mul_is_commutative(y * y, b * b);
}

/// The refracted direction before scaling is long enough to scale to a
/// unit vector: its squared length is `(st^2 + ct^2) * |dp|^2`, at least
/// about `UNIT^2`.
pub proof fn lemma_refracted_long(ray: Ray, s: Surface)
    requires
        ray.wf(),
        s.wf(),
        -UNIT < sin_refracted(ray, s) < UNIT,
    ensures
        refracted_raw(ray, s).0 * refracted_raw(ray, s).0 + refracted_raw(ray, s).1 * refracted_raw(
            ray,
            s,
        ).1 >= 0x10_0000_0000,
        spec_unit_direction(refracted_raw(ray, s).0, refracted_raw(ray, s).1) is Some,
{
    let st = sin_refracted(ray, s);
    let rem = UNIT * UNIT - st * st;
    assert(0 < rem <= UNIT * UNIT) by (nonlinear_arith)
        requires
            -UNIT < st < UNIT,
            rem == UNIT * UNIT - st * st,
    ;
    crate::fixed::lemma_isqrt_exists(rem);
    let ct = cos_refracted(st);
    assert(ct <= UNIT) by (nonlinear_arith)
        requires
            ct * ct <= rem,
            rem <= UNIT * UNIT,
            ct >= 0,
    ;
    let q = st * st + ct * ct;
    assert(q >= UNIT * UNIT - 2 * UNIT - 1) by (nonlinear_arith)
        requires
            rem < (ct + 1) * (ct + 1),
            rem == UNIT * UNIT - st * st,
            q == st * st + ct * ct,
            0 <= ct <= UNIT,
    ;
    let (ax, ay) = (s.dp.x as int, s.dp.y as int);
    let dd = ax * ax + ay * ay;
    assert(dd >= 1) by (nonlinear_arith)
        requires
            dd == ax * ax + ay * ay,
            ax != 0 || ay != 0,
    ;
    let n = facing_normal(ray, s);
    let d = refracted_raw(ray, s);
    assert(n.x == -ay && n.y == ax || n.x == ay && n.y == -ax);
    if n.x == -ay && n.y == ax {
        lemma_rotation_norm(st, ct, ax, ay);
        assert(d.0 == st * ax + ct * ay && d.1 == st * ay - ct * ax) by (nonlinear_arith)
            requires
                d.0 == st * ax - ct * n.x,
                d.1 == st * ay - ct * n.y,
                n.x == -ay,
                n.y == ax,
        ;
    } else {
        lemma_rotation_norm(st, -ct, ax, ay);
        assert(d.0 == st * ax + (-ct) * ay && d.1 == st * ay - (-ct) * ax) by (nonlinear_arith)
            requires
                d.0 == st * ax - ct * n.x,
                d.1 == st * ay - ct * n.y,
                n.x == ay,
                n.y == -ax,
        ;
        assert((-ct) * (-ct) == ct * ct) by (nonlinear_arith);
    }
    assert(d.0 * d.0 + d.1 * d.1 == q * dd);
    assert(q * dd >= q) by (nonlinear_arith)
        requires
            dd >= 1,
            q >= 0,
    ;
    crate::scene::lemma_unit_direction_some(d.0, d.1);
}

/// `s_num * d / den` lies between `0` and `d` when `0 <= s_num <= den`.
proof fn lemma_fraction_between(sn: int, d: int, den: int)
    requires
        den > 0,
        0 <= sn <= den,
    ensures
        d >= 0 ==> 0 <= sn * d / den <= d,
        d < 0 ==> d <= sn * d / den <= 0,
{
    if d >= 0 {
        assert(0 <= sn * d <= den * d) by (nonlinear_arith)
            requires
                0 <= sn <= den,
                d >= 0,
        ;
        vstd::arithmetic::div_mod::lemma_div_is_ordered(0, sn * d, den);
        vstd::arithmetic::div_mod::lemma_div_is_ordered(sn * d, den * d, den);
        vstd::arithmetic::div_mod::lemma_div_by_multiple(d, den);
        assert(den * d == d * den) by (nonlinear_arith);
    } else {
        assert(den * d <= sn * d <= 0) by (nonlinear_arith)
            requires
                0 <= sn <= den,
                d < 0,
        ;
        vstd::arithmetic::div_mod::lemma_div_is_ordered(den * d, sn * d, den);
        vstd::arithmetic::div_mod::lemma_div_is_ordered(sn * d, 0, den);
        assert(den * d == d * den + 0) by (nonlinear_arith);
        vstd::arithmetic::div_mod::lemma_fundamental_div_mod_converse(den * d, den, d, 0);
    }
}

/// The hit point lies on the surface, so in the scene.
pub proof fn lemma_hit_point_in_scene(s: Surface, c: Crossing)
    requires
        s.wf(),
        crossing_bounded(c),
    ensures
        in_scene(hit_point(s, c)),
        hit_point(s, c).x == s.p1.x + c.s_num * s.dp.x / (c.den as int),
        hit_point(s, c).y == s.p1.y + c.s_num * s.dp.y / (c.den as int),
{
    lemma_fraction_between(c.s_num as int, s.dp.x as int, c.den as int);
    lemma_fraction_between(c.s_num as int, s.dp.y as int, c.den as int);
}

/// `0 <= i * (UNIT - r) / UNIT <= i` for a fraction `r`.
proof fn lemma_attenuated(i: int, r: int)
    requires
        0 <= i,
        0 <= r <= UNIT,
    ensures
        0 <= attenuated(i, r) <= i,
{
    assert(0 <= i * (UNIT - r) <= i * UNIT) by (nonlinear_arith)
        requires
            0 <= i,
            0 <= r <= UNIT,
    ;
    vstd::arithmetic::div_mod::lemma_div_is_ordered(0, i * (UNIT - r), UNIT as int);
    vstd::arithmetic::div_mod::lemma_div_is_ordered(i * (UNIT - r), i * UNIT, UNIT as int);
    vstd::arithmetic::div_mod::lemma_div_by_multiple(i, UNIT as int);
}

/// The point of `surface` where the crossing `c` lies.
pub fn surface_point(surface: &Surface, c: Crossing) -> (r: Vec2)
    requires
        surface.wf(),
        crossing_bounded(c),
    ensures
        r == hit_point(*surface, c),
        in_scene(r),
{
    proof {
        lemma_hit_point_in_scene(*surface, c);
        lemma_mul_bound(c.s_num as int, surface.dp.x as int, 0x80_0000_0000_0000, 0x2_0000_0000);
        lemma_mul_bound(c.s_num as int, surface.dp.y as int, 0x80_0000_0000_0000, 0x2_0000_0000);
    }
    let hx = surface.p1.x as i128 + floor_div(c.s_num * (surface.dp.x as i128), c.den);
    let hy = surface.p1.y as i128 + floor_div(c.s_num * (surface.dp.y as i128), c.den);
    Vec2 { x: hx as i64, y: hy as i64 }
}

/// The outcome of `ray` meeting `surface` at the crossing `c`.
pub fn interact(ray: &Ray, surface: &Surface, c: Crossing) -> (r: Interaction)
    requires
        ray.wf(),
        surface.wf(),
        crossing_bounded(c),
    ensures
        r == spec_interact(*ray, *surface, c),
        r is Absorbed <==> surface.absorption >= UNIT,
        r is TotalInternalReflection <==> surface.absorption < UNIT && (sin_refracted(*ray, *surface)
            <= -UNIT || sin_refracted(*ray, *surface) >= UNIT),
        r matches Interaction::Refracted(child) ==> {
            &&& child.wf()
            &&& child.i <= ray.i
            &&& child.index == surface.index
            &&& child.p == hit_point(*surface, c)
        },
{
    if surface.absorption >= UNIT {
        return Interaction::Absorbed;
    }
    let lt = dot2(ray.l, surface.dp);
    proof {
        lemma_mul_bound(ray.l.x as int, surface.dp.x as int, DIR_LIMIT as int, 0x2_0000_0000);
        lemma_mul_bound(ray.l.y as int, surface.dp.y as int, DIR_LIMIT as int, 0x2_0000_0000);
        lemma_mul_bound(lt as int, ray.index as int, 0x80_0000_0000_0000, 0x400_0000);
        assert(surface.length <= 0x4_0000_0000) by {
            crate::scene::lemma_length_bound(*surface);
        }
        assert(0 < surface.length * surface.index <= 0x4_0000_0000 * 0x400_0000) by (nonlinear_arith)
            requires
                0 < surface.length <= 0x4_0000_0000,
                0 < surface.index <= 0x400_0000,
        ;
    }
    let st = floor_div(lt * (ray.index as i128), (surface.length as i128) * (surface.index as i128));
    if st <= -(UNIT as i128) || st >= UNIT as i128 {
        return Interaction::TotalInternalReflection;
    }
    proof {
        assert(0 <= st * st < UNIT * UNIT) by (nonlinear_arith)
            requires
                -UNIT < st < UNIT,
        ;
    }
    let cu = isqrt((0x100_0000_0000i128 - st * st) as u128);
    proof {
        assert(cu <= UNIT) by (nonlinear_arith)
            requires
                cu * cu <= UNIT * UNIT,
                cu >= 0,
        ;
    }
    let ct = cu as i128;
    proof {
        lemma_mul_bound(-surface.dp.y, ray.l.x as int, 0x2_0000_0000, DIR_LIMIT as int);
        lemma_mul_bound(surface.dp.x as int, ray.l.y as int, 0x2_0000_0000, DIR_LIMIT as int);
    }
    let n = if -surface.dp.y as i128 * ray.l.x as i128 + surface.dp.x as i128 * ray.l.y as i128 > 0 {
        Vec2 { x: surface.dp.y, y: -surface.dp.x }
    } else {
        Vec2 { x: -surface.dp.y, y: surface.dp.x }
    };
    proof {
        lemma_mul_bound(st as int, surface.dp.x as int, UNIT as int, 0x2_0000_0000);
        lemma_mul_bound(st as int, surface.dp.y as int, UNIT as int, 0x2_0000_0000);
        lemma_mul_bound(ct as int, n.x as int, UNIT as int, 0x2_0000_0000);
        lemma_mul_bound(ct as int, n.y as int, UNIT as int, 0x2_0000_0000);
    }
    let dx = st * (surface.dp.x as i128) - ct * (n.x as i128);
    let dy = st * (surface.dp.y as i128) - ct * (n.y as i128);
    proof {
        lemma_refracted_long(*ray, *surface);
    }
    let l = unit_direction(dx, dy).unwrap();
    proof {
        lemma_attenuated(ray.i as int, surface.reflection as int);
        lemma_mul_bound(ray.i as int, (UNIT - surface.reflection) as int, UNIT as int, UNIT as int);
    }
    let i = floor_div((ray.i as i128) * ((UNIT - surface.reflection) as i128), UNIT as i128);
    Interaction::Refracted(
        Ray { p: surface_point(surface, c), l, i: i as i64, index: surface.index, w: ray.w },
    )
}

/// A refracted child is a valid ray that starts at the hit point, travels
/// in the surface's medium and is no brighter than its parent.
pub proof fn lemma_refracted_child(ray: Ray, s: Surface, c: Crossing)
    requires
        ray.wf(),
        s.wf(),
        crossing_bounded(c),
    ensures
        spec_interact(ray, s, c) matches Interaction::Refracted(child) ==> {
            &&& child.wf()
            &&& child.i <= ray.i
            &&& child.index == s.index
            &&& child.p == hit_point(s, c)
            &&& child.w == ray.w
        },
{
    lemma_hit_point_in_scene(s, c);
    lemma_attenuated(ray.i as int, s.reflection as int);
    if s.absorption < UNIT && -UNIT < sin_refracted(ray, s) < UNIT {
        lemma_refracted_long(ray, s);
    }
}

} // verus!
