//! The geometry kernel: where a ray crosses a surface, and which surface
//! it meets first.
use vstd::prelude::*;
use crate::fixed::{UNIT, COORD_LIMIT, DIR_LIMIT};
use crate::geometry::{cross, cross2, dot, dot2, lemma_mul_bound, Vec2};
use crate::scene::{spec_sub, Ray, Surface};

verus! {

/// Below this magnitude of `dp · perp(l)` a ray counts as parallel to a
/// surface (1e-6 in scene units).
pub const PARALLEL_EPS: i128 = 1099512;

/// Where a ray crosses a surface, as exact fractions over the common
/// positive denominator `den`: the ray parameter is `t_num / den` and the
/// position along the surface is `s_num / den`.
#[derive(Clone, Copy, Debug, PartialEq, Eq, Structural)]
pub struct Crossing {
    pub t_num: i128,
    pub s_num: i128,
    pub den: i128,
}

/// `l` turned a quarter turn counterclockwise.
pub open spec fn perp(l: Vec2) -> Vec2 {
    Vec2 { x: (-l.y) as i64, y: l.x }
}

/// `dp · perp(l)`: zero when the ray runs along the surface.
pub open spec fn raw_denom(ray: Ray, s: Surface) -> int {
    dot(s.dp, perp(ray.l))
}

/// Numerator of the ray parameter over `raw_denom`.
pub open spec fn raw_t(ray: Ray, s: Surface) -> int {
    cross(s.dp, spec_sub(ray.p, s.p1))
}

/// Numerator of the surface parameter over `raw_denom`.
pub open spec fn raw_s(ray: Ray, s: Surface) -> int {
    dot(spec_sub(ray.p, s.p1), perp(ray.l))
}

/// The crossing of the ray with the segment, if the two are not parallel,
/// the ray parameter is at least zero and the surface parameter in `[0, 1]`.
pub open spec fn spec_intersect(ray: Ray, s: Surface) -> Option<Crossing> {
    let d = raw_denom(ray, s);
    if -PARALLEL_EPS < d < PARALLEL_EPS {
        None
    } else {
        let t = if d > 0 { raw_t(ray, s) } else { -raw_t(ray, s) };
        let sn = if d > 0 { raw_s(ray, s) } else { -raw_s(ray, s) };
        let den = if d > 0 { d } else { -d };
        if t >= 0 && 0 <= sn <= den {
            Some(Crossing { t_num: t as i128, s_num: sn as i128, den: den as i128 })
        } else {
            None
        }
    }
}

/// Bounds that every crossing of a valid ray and surface obeys.
pub open spec fn crossing_bounded(c: Crossing) -> bool {
    &&& 0 <= c.t_num <= 0x8_0000_0000_0000_0000
    &&& PARALLEL_EPS <= c.den <= 0x80_0000_0000_0000
    &&& 0 <= c.s_num <= c.den
}

proof fn lemma_raw_bounds(ray: Ray, s: Surface)
    requires
        ray.wf(),
        s.wf(),
    ensures
        -0x80_0000_0000_0000 <= raw_denom(ray, s) <= 0x80_0000_0000_0000,
        -0x8_0000_0000_0000_0000 <= raw_t(ray, s) <= 0x8_0000_0000_0000_0000,
        -0x80_0000_0000_0000 <= raw_s(ray, s) <= 0x80_0000_0000_0000,
{
    let v1 = spec_sub(ray.p, s.p1);
    let v3 = perp(ray.l);
    lemma_mul_bound(s.dp.x as int, v3.x as int, 0x2_0000_0000, DIR_LIMIT as int);
    lemma_mul_bound(s.dp.y as int, v3.y as int, 0x2_0000_0000, DIR_LIMIT as int);
    lemma_mul_bound(s.dp.x as int, v1.y as int, 0x2_0000_0000, 0x2_0000_0000);
    lemma_mul_bound(v1.x as int, s.dp.y as int, 0x2_0000_0000, 0x2_0000_0000);
    lemma_mul_bound(v1.x as int, v3.x as int, 0x2_0000_0000, DIR_LIMIT as int);
    lemma_mul_bound(v1.y as int, v3.y as int, 0x2_0000_0000, DIR_LIMIT as int);
}

/// Where `ray` crosses `surface` (see `spec_intersect`); `None` stands for
/// an infinite ray parameter.
pub fn intersect(ray: &Ray, surface: &Surface) -> (r: Option<Crossing>)
    requires
        ray.wf(),
        surface.wf(),
    ensures
        r == spec_intersect(*ray, *surface),
        -PARALLEL_EPS < raw_denom(*ray, *surface) < PARALLEL_EPS ==> r is None,
        r matches Some(c) ==> crossing_bounded(c),
{
    proof {
        lemma_raw_bounds(*ray, *surface);
    }
    let v1 = Vec2 { x: ray.p.x - surface.p1.x, y: ray.p.y - surface.p1.y };
    let v2 = surface.dp;
    let v3 = Vec2 { x: -ray.l.y, y: ray.l.x };
    let d = dot2(v2, v3);
    if -PARALLEL_EPS < d && d < PARALLEL_EPS {
        return None;
    }
    let t = cross2(v2, v1);
    let sn = dot2(v1, v3);
    let (t, sn, den) = if d > 0 { (t, sn, d) } else { (-t, -sn, -d) };
    if t >= 0 && 0 <= sn && sn <= den {
        Some(Crossing { t_num: t, s_num: sn, den })
    } else {
        None
    }
}

/// A reported crossing lies on the segment: its surface parameter is in
/// `[0, 1]`, its ray parameter is not negative, and the point that the ray
/// reaches at `t` is exactly the point of the segment at `s`
/// (`ray.p + t * ray.l == p1 + s * dp`, multiplied through by `den`).
pub proof fn lemma_crossing_on_segment(ray: Ray, s: Surface)
    requires
        ray.wf(),
        s.wf(),
    ensures
        spec_intersect(ray, s) matches Some(c) ==> {
            &&& c.den > 0
            &&& c.t_num >= 0
            &&& 0 <= c.s_num <= c.den
            &&& c.den * (ray.p.x - s.p1.x) + c.t_num * ray.l.x == c.s_num * s.dp.x
            &&& c.den * (ray.p.y - s.p1.y) + c.t_num * ray.l.y == c.s_num * s.dp.y
        },
{
    lemma_raw_bounds(ray, s);
    let v1 = spec_sub(ray.p, s.p1);
    let v3 = perp(ray.l);
    assert(v1.x == ray.p.x - s.p1.x && v1.y == ray.p.y - s.p1.y);
    assert(v3.x == -ray.l.y && v3.y == ray.l.x);
    let (d, t, sn) = (raw_denom(ray, s), raw_t(ray, s), raw_s(ray, s));
    let (ax, ay, bx, by, lx, ly) = (
        v1.x as int,
        v1.y as int,
        s.dp.x as int,
        s.dp.y as int,
        ray.l.x as int,
        ray.l.y as int,
    );
    assert(d == bx * v3.x + by * v3.y);
    assert(sn == ax * v3.x + ay * v3.y);
    assert(d == by * lx - bx * ly) by (nonlinear_arith)
        requires
            d == bx * v3.x + by * v3.y,
            v3.x == -ly,
            v3.y == lx,
    ;
    assert(sn == ay * lx - ax * ly) by (nonlinear_arith)
        requires
            sn == ax * v3.x + ay * v3.y,
            v3.x == -ly,
            v3.y == lx,
    ;
    assert(d * ax + t * lx == sn * bx) by (nonlinear_arith)
        requires
            d == by * lx - bx * ly,
            t == bx * ay - ax * by,
            sn == ay * lx - ax * ly,
    ;
    assert(d * ay + t * ly == sn * by) by (nonlinear_arith)
        requires
            d == by * lx - bx * ly,
            t == bx * ay - ax * by,
            sn == ay * lx - ax * ly,
    ;
    assert((-d) * ax + (-t) * lx == (-sn) * bx && (-d) * ay + (-t) * ly == (-sn) * by)
        by (nonlinear_arith)
        requires
            d * ax + t * lx == sn * bx,
            d * ay + t * ly == sn * by,
    ;
}

/// Two parallel lines never cross: a ray with `|dp · perp(l)|` below the
/// threshold has no crossing with the surface.
pub proof fn lemma_parallel_no_crossing(ray: Ray, s: Surface)
    requires
        -PARALLEL_EPS < raw_denom(ray, s) < PARALLEL_EPS,
    ensures
        spec_intersect(ray, s) is None,
{
}

/// The crossing lies beyond the self-intersection floor: `t > min_t / UNIT`.
pub open spec fn hit_valid(c: Crossing, min_t: int) -> bool {
    c.t_num * UNIT > min_t * c.den
}

/// `a` comes strictly before `b` along the ray.
pub open spec fn earlier(a: Crossing, b: Crossing) -> bool {
    a.t_num * b.den < b.t_num * a.den
}

/// The crossing with `s` that counts for the nearest-hit search.
pub open spec fn valid_crossing(ray: Ray, s: Surface, min_t: int) -> Option<Crossing> {
    match spec_intersect(ray, s) {
        Some(c) => if hit_valid(c, min_t) {
            Some(c)
        } else {
            None
        },
        None => None,
    }
}

/// The first surface, in the order of `ss`, whose valid crossing comes no
/// later than any other's, with that crossing.
pub open spec fn spec_nearest(ray: Ray, ss: Seq<Surface>, min_t: int) -> Option<(int, Crossing)>
    decreases ss.len(),
{
    if ss.len() == 0 {
        None
    } else {
        let prev = spec_nearest(ray, ss.drop_last(), min_t);
        let k = ss.len() - 1;
        match valid_crossing(ray, ss[k], min_t) {
            Some(c) => match prev {
                None => Some((k, c)),
                Some(best) => if earlier(c, best.1) {
                    Some((k, c))
                } else {
                    prev
                },
            },
            None => prev,
        }
    }
}

/// The minimum ray parameter of a hit, in fixed-point steps, that the
/// nearest-hit search accepts.
pub open spec fn min_t_ok(min_t: int) -> bool {
    0 <= min_t <= COORD_LIMIT
}

/// Every surface of the sequence is well formed.
pub open spec fn all_wf(ss: Seq<Surface>) -> bool {
    forall|i: int| 0 <= i < ss.len() ==> #[trigger] ss[i].wf()
}

/// The surface that `ray` meets first beyond `min_t`, with its crossing;
/// ties go to the surface that comes first in `surfaces`.
pub fn nearest_hit(ray: &Ray, surfaces: &Vec<Surface>, min_t: i64) -> (r: Option<(usize, Crossing)>)
    requires
        ray.wf(),
        all_wf(surfaces@),
        min_t_ok(min_t as int),
    ensures
        match r {
            None => spec_nearest(*ray, surfaces@, min_t as int) is None,
            Some((k, c)) => spec_nearest(*ray, surfaces@, min_t as int) == Some((k as int, c)),
        },
{
    let mut best: Option<(usize, Crossing)> = None;
    let mut i: usize = 0;
    while i < surfaces.len()
        invariant
            ray.wf(),
            all_wf(surfaces@),
            min_t_ok(min_t as int),
            i <= surfaces.len(),
            match best {
                None => spec_nearest(*ray, surfaces@.take(i as int), min_t as int) is None,
                Some((k, c)) => spec_nearest(*ray, surfaces@.take(i as int), min_t as int) == Some(
                    (k as int, c),
                ) && crossing_bounded(c),
            },
        decreases surfaces.len() - i,
    {
        assert(surfaces@.take(i as int + 1).drop_last() =~= surfaces@.take(i as int));
        assert(surfaces@.take(i as int + 1)[i as int] == surfaces@[i as int]);
        assert(surfaces@[i as int].wf());
        let found = intersect(ray, &surfaces[i]);
        if let Some(c) = found {
            proof {
                lemma_mul_bound(c.t_num as int, UNIT as int, 0x8_0000_0000_0000_0000, UNIT as int);
                lemma_mul_bound(min_t as int, c.den as int, COORD_LIMIT as int, 0x80_0000_0000_0000);
            }
            if c.t_num * (UNIT as i128) > (min_t as i128) * c.den {
                match best {
                    None => {
                        best = Some((i, c));
                    },
                    Some((_, b)) => {
                        proof {
                            lemma_mul_bound(c.t_num as int, b.den as int, 0x8_0000_0000_0000_0000, 0x80_0000_0000_0000);
                            lemma_mul_bound(b.t_num as int, c.den as int, 0x8_0000_0000_0000_0000, 0x80_0000_0000_0000);
                        }
                        if c.t_num * b.den < b.t_num * c.den {
                            best = Some((i, c));
                        }
                    },
                }
            }
        }
        i = i + 1;
    }
    assert(surfaces@.take(surfaces.len() as int) =~= surfaces@);
    best
}

/// Every crossing of a valid ray with a valid surface obeys the bounds.
pub proof fn lemma_crossing_bounded(ray: Ray, s: Surface)
    requires
        ray.wf(),
        s.wf(),
    ensures
        spec_intersect(ray, s) matches Some(c) ==> crossing_bounded(c),
{
    lemma_raw_bounds(ray, s);
}

/// The nearest hit names a surface of the sequence and its valid crossing.
pub proof fn lemma_nearest_in_range(ray: Ray, ss: Seq<Surface>, min_t: int)
    requires
        ray.wf(),
        all_wf(ss),
    ensures
        spec_nearest(ray, ss, min_t) matches Some((k, c)) ==> {
            &&& 0 <= k < ss.len()
            &&& valid_crossing(ray, ss[k], min_t) == Some(c)
            &&& crossing_bounded(c)
        },
    decreases ss.len(),
{
    if ss.len() > 0 {
        let prefix = ss.drop_last();
        assert forall|i: int| 0 <= i < prefix.len() implies #[trigger] prefix[i].wf() by {
            assert(prefix[i] == ss[i]);
        }
        lemma_nearest_in_range(ray, prefix, min_t);
        assert(ss[ss.len() - 1].wf());
        lemma_crossing_bounded(ray, ss[ss.len() - 1]);
    }
}

/// `c` before `b` and `b` no later than `x` puts `c` before `x`.
proof fn lemma_earlier_trans(c: Crossing, b: Crossing, x: Crossing)
    requires
        c.den > 0,
        b.den > 0,
        x.den > 0,
        earlier(c, b),
        !earlier(x, b),
    ensures
        earlier(c, x),
{
    let (ct, cd, bt, bd, xt, xd) = (
        c.t_num as int,
        c.den as int,
        b.t_num as int,
        b.den as int,
        x.t_num as int,
        x.den as int,
    );
    assert(ct * bd * xd < bt * cd * xd) by (nonlinear_arith)
        requires
            ct * bd < bt * cd,
            xd > 0,
    ;
    assert(bt * xd * cd <= xt * bd * cd) by (nonlinear_arith)
        requires
            bt * xd <= xt * bd,
            cd > 0,
    ;
    assert(ct * xd * bd < xt * cd * bd) by (nonlinear_arith)
        requires
            ct * bd * xd < bt * cd * xd,
            bt * xd * cd <= xt * bd * cd,
    ;
    assert(ct * xd < xt * cd) by (nonlinear_arith)
        requires
            ct * xd * bd < xt * cd * bd,
            bd > 0,
    ;
}

/// The nearest-hit search picks a surface whose valid crossing no other
/// surface's comes before, and the first such surface on a tie; it finds
/// none exactly when no surface has a valid crossing.
pub proof fn lemma_nearest_first_minimum(ray: Ray, ss: Seq<Surface>, min_t: int)
    requires
        ray.wf(),
        all_wf(ss),
    ensures
        spec_nearest(ray, ss, min_t) is None <==> forall|j: int|
            0 <= j < ss.len() ==> (#[trigger] valid_crossing(ray, ss[j], min_t)) is None,
        spec_nearest(ray, ss, min_t) matches Some((k, c)) ==> forall|j: int|
            0 <= j < ss.len() ==> (#[trigger] valid_crossing(ray, ss[j], min_t) matches Some(b)
                ==> !earlier(b, c)),
        spec_nearest(ray, ss, min_t) matches Some((k, c)) ==> forall|j: int|
            0 <= j < k ==> (#[trigger] valid_crossing(ray, ss[j], min_t) matches Some(b) ==> earlier(
                c,
                b,
            )),
    decreases ss.len(),
{
    lemma_nearest_in_range(ray, ss, min_t);
    if ss.len() > 0 {
        let prefix = ss.drop_last();
        let last = ss.len() - 1;
        assert forall|i: int| 0 <= i < prefix.len() implies #[trigger] prefix[i].wf() by {
            assert(prefix[i] == ss[i]);
        }
        lemma_nearest_first_minimum(ray, prefix, min_t);
        lemma_nearest_in_range(ray, prefix, min_t);
        assert forall|j: int| 0 <= j < last implies #[trigger] valid_crossing(ray, ss[j], min_t)
            == valid_crossing(ray, prefix[j], min_t) by {
            assert(prefix[j] == ss[j]);
        }
        assert forall|j: int| 0 <= j < ss.len() && (#[trigger] valid_crossing(ray, ss[j], min_t)) is Some
            implies valid_crossing(ray, ss[j], min_t)->Some_0.den > 0 by {
            assert(ss[j].wf());
            lemma_crossing_bounded(ray, ss[j]);
        }
        let prev = spec_nearest(ray, prefix, min_t);
        if let Some(c) = valid_crossing(ray, ss[last], min_t) {
            if let Some((pk, pc)) = prev {
                if earlier(c, pc) {
                    assert forall|j: int| 0 <= j < ss.len() implies (#[trigger] valid_crossing(
                        ray,
                        ss[j],
                        min_t,
                    ) matches Some(b) ==> !earlier(b, c)) by {
                        if j < last {
                            if let Some(b) = valid_crossing(ray, ss[j], min_t) {
                                lemma_earlier_trans(c, pc, b);
                            }
                        }
                    }
                    assert forall|j: int| 0 <= j < last implies (#[trigger] valid_crossing(
                        ray,
                        ss[j],
                        min_t,
                    ) matches Some(b) ==> earlier(c, b)) by {
                        if let Some(b) = valid_crossing(ray, ss[j], min_t) {
                            lemma_earlier_trans(c, pc, b);
                        }
                    }
                }
            }
        }
    }
}

} // verus!
