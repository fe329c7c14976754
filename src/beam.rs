//! Sampling a beam source's waist into parallel root rays, and building
//! one tree per root ray.
use vstd::prelude::*;
use crate::fixed::{floor_div, UNIT, COORD_LIMIT};
use crate::geometry::{lemma_mul_bound, Vec2};
use crate::kernel::all_wf;
use crate::scene::{BeamSource, Ray, Surface};
use crate::tree::{trace, traced, RayTree, TraceConfig};

verus! {

/// The largest sampling density, in rays per thousand scene units.
pub const MAX_DENSITY: u32 = 1000000;

/// Rays per thousand scene units that the beam samples by default (0.2 per unit).
pub const RAY_DENSITY: u32 = 200;

/// How many rays a waist of `waist` fixed-point steps holds at `density`
/// rays per thousand scene units, rounded down.
pub open spec fn spec_sample_count(waist: int, density: int) -> int {
    waist * density / (1000 * UNIT)
}

/// The transverse offset of sample `k` of `n`, in fixed-point steps:
/// evenly spaced from `-waist / 2` to `waist / 2`, rounded down; a single
/// sample sits at `-waist / 2`.
pub open spec fn sample_offset(waist: int, n: int, k: int) -> int {
    if n > 1 {
        waist * (2 * k - (n - 1)) / (2 * (n - 1))
    } else {
        (-waist) / 2
    }
}

/// Root ray `k` of `n` of the source: moved across the beam by its offset,
/// along the source's direction, at full intensity.
pub open spec fn root_ray(src: BeamSource, n: int, k: int) -> Ray {
    let off = sample_offset(src.waist as int, n, k);
    Ray {
        p: Vec2 {
            x: (src.pos.x + off * (-src.direction.y) / (UNIT as int)) as i64,
            y: (src.pos.y + off * src.direction.x / (UNIT as int)) as i64,
        },
        l: src.direction,
        i: UNIT,
        index: src.index,
        w: src.w,
    }
}

/// Number of rays that sample a waist at the given density.
pub fn sample_count(waist: i64, density: u32) -> (r: usize)
    requires
        0 < waist <= COORD_LIMIT,
        density <= MAX_DENSITY,
    ensures
        r == spec_sample_count(waist as int, density as int),
        r <= 4096000,
{
    proof {
        assert(waist * density <= COORD_LIMIT * MAX_DENSITY) by (nonlinear_arith)
            requires
                0 < waist <= COORD_LIMIT,
                0 <= density <= MAX_DENSITY,
        ;
        assert(waist * density >= 0) by (nonlinear_arith)
            requires
                0 < waist,
                0 <= density,
        ;
        vstd::arithmetic::div_mod::lemma_div_is_ordered(
            waist * density,
            COORD_LIMIT * MAX_DENSITY,
            1000 * UNIT,
        );
        vstd::arithmetic::div_mod::lemma_fundamental_div_mod_converse(
            COORD_LIMIT * MAX_DENSITY,
            1000 * UNIT,
            4096000,
            0,
        );
    }
    ((waist as u64) * (density as u64) / (1000 * (UNIT as u64))) as usize
}

/// A denser sampling never yields fewer rays: the count is monotone in the
/// density, so halving the density cannot raise it.
pub proof fn lemma_sample_count_monotone(waist: int, low: int, high: int)
    requires
        0 < waist,
        0 <= low <= high,
    ensures
        spec_sample_count(waist, low) <= spec_sample_count(waist, high),
{
    assert(waist * low <= waist * high) by (nonlinear_arith)
        requires
            0 < waist,
            low <= high,
    ;
    vstd::arithmetic::div_mod::lemma_div_is_ordered(waist * low, waist * high, 1000 * UNIT);
}

/// Each offset lies within the waist on either side.
proof fn lemma_offset_bound(waist: int, n: int, k: int)
    requires
        0 < waist,
        0 <= k < n,
    ensures
        -waist <= sample_offset(waist, n, k) <= waist,
{
    if n > 1 {
        let m = n - 1;
        let num = waist * (2 * k - m);
        assert(-(waist * m) <= num <= waist * m) by (nonlinear_arith)
            requires
                0 < waist,
                0 <= k <= m,
                num == waist * (2 * k - m),
        ;
        assert(-(waist * 2 * m) <= num <= waist * (2 * m)) by (nonlinear_arith)
            requires
                0 < waist,
                m > 0,
                -(waist * m) <= num <= waist * m,
        ;
        vstd::arithmetic::div_mod::lemma_div_is_ordered(num, waist * (2 * m), 2 * m);
        vstd::arithmetic::div_mod::lemma_div_is_ordered(-(waist * 2 * m), num, 2 * m);
        vstd::arithmetic::div_mod::lemma_div_by_multiple(waist, 2 * m);
        assert(waist * (2 * m) == waist * 2 * m) by (nonlinear_arith);
        assert(-(waist * 2 * m) == (-waist) * (2 * m) + 0) by (nonlinear_arith);
        vstd::arithmetic::div_mod::lemma_fundamental_div_mod_converse(
            -(waist * 2 * m),
            2 * m,
            -waist,
            0,
        );
    }
}

/// The root rays of a source, in order of their offsets.
pub fn sample_rays(src: &BeamSource, density: u32) -> (r: Vec<Ray>)
    requires
        src.wf(),
        density <= MAX_DENSITY,
    ensures
        r.len() == spec_sample_count(src.waist as int, density as int),
        forall|k: int| 0 <= k < r.len() ==> #[trigger] r[k] == root_ray(*src, r.len() as int, k),
        forall|k: int| 0 <= k < r.len() ==> (#[trigger] r[k]).wf(),
{
    let n = sample_count(src.waist, density);
    let mut rays: Vec<Ray> = Vec::new();
    let mut k: usize = 0;
    while k < n
        invariant
            src.wf(),
            n == spec_sample_count(src.waist as int, density as int),
            n <= 0x1_0000_0000,
            k <= n,
            rays.len() == k,
            forall|j: int| 0 <= j < k ==> #[trigger] rays[j] == root_ray(*src, n as int, j),
            forall|j: int| 0 <= j < k ==> (#[trigger] rays[j]).wf(),
        decreases n - k,
    {
        let waist = src.waist as i128;
        let ghost off = sample_offset(src.waist as int, n as int, k as int);
        proof {
            lemma_offset_bound(src.waist as int, n as int, k as int);
        }
        let offset: i128 = if n > 1 {
            proof {
                lemma_mul_bound(waist as int, 2 * k - (n - 1), COORD_LIMIT as int, 0x2_0000_0000);
            }
            floor_div(waist * (2 * (k as i128) - ((n - 1) as i128)), 2 * ((n - 1) as i128))
        } else {
            floor_div(-waist, 2)
        };
        proof {
            lemma_mul_bound(offset as int, -src.direction.y, src.waist as int, 2 * UNIT);
            lemma_mul_bound(offset as int, src.direction.x as int, src.waist as int, 2 * UNIT);
            lemma_shift_bound(offset as int * (-src.direction.y), src.waist as int);
            lemma_shift_bound(offset as int * src.direction.x, src.waist as int);
        }
        let px = src.pos.x as i128 + floor_div(offset * (-(src.direction.y as i128)), UNIT as i128);
        let py = src.pos.y as i128 + floor_div(offset * (src.direction.x as i128), UNIT as i128);
        let ray = Ray {
            p: Vec2 { x: px as i64, y: py as i64 },
            l: src.direction,
            i: UNIT,
            index: src.index,
            w: src.w,
        };
        rays.push(ray);
        k = k + 1;
    }
    rays
}

/// `|a / UNIT| <= 2 * waist` when `|a| <= waist * 2 * UNIT`.
proof fn lemma_shift_bound(a: int, waist: int)
    requires
        waist > 0,
        -(waist * (2 * UNIT)) <= a <= waist * (2 * UNIT),
    ensures
        -2 * waist <= a / (UNIT as int) <= 2 * waist,
{
    vstd::arithmetic::div_mod::lemma_div_is_ordered(a, waist * (2 * UNIT), UNIT as int);
    vstd::arithmetic::div_mod::lemma_div_is_ordered(-(waist * (2 * UNIT)), a, UNIT as int);
    assert(waist * (2 * UNIT) == (2 * waist) * UNIT) by (nonlinear_arith);
    vstd::arithmetic::div_mod::lemma_div_by_multiple(2 * waist, UNIT as int);
    assert(-(waist * (2 * UNIT)) == (-2 * waist) * UNIT + 0) by (nonlinear_arith);
    vstd::arithmetic::div_mod::lemma_fundamental_div_mod_converse(
        -(waist * (2 * UNIT)),
        UNIT as int,
        -2 * waist,
        0,
    );
}

/// `trees` holds one tree per root ray of `src`, each traced among `ss`.
pub open spec fn built(
    trees: Seq<RayTree>,
    src: BeamSource,
    ss: Seq<Surface>,
    cfg: TraceConfig,
    density: int,
) -> bool {
    &&& trees.len() == spec_sample_count(src.waist as int, density)
    &&& forall|k: int|
        0 <= k < trees.len() ==> traced(#[trigger] trees[k], root_ray(src, trees.len() as int, k), ss, cfg)
}

/// The trees of a source: one per root ray of its waist, in order.
pub fn build_trees(src: &BeamSource, surfaces: &Vec<Surface>, cfg: TraceConfig, density: u32) -> (r: Vec<
    RayTree,
>)
    requires
        src.wf(),
        all_wf(surfaces@),
        cfg.wf(),
        density <= MAX_DENSITY,
    ensures
        built(r@, *src, surfaces@, cfg, density as int),
{
    let roots = sample_rays(src, density);
    let mut trees: Vec<RayTree> = Vec::new();
    let mut k: usize = 0;
    while k < roots.len()
        invariant
            all_wf(surfaces@),
            cfg.wf(),
            roots.len() == spec_sample_count(src.waist as int, density as int),
            forall|j: int| 0 <= j < roots.len() ==> #[trigger] roots[j] == root_ray(*src, roots.len() as int, j),
            forall|j: int| 0 <= j < roots.len() ==> (#[trigger] roots[j]).wf(),
            k <= roots.len(),
            trees.len() == k,
            forall|j: int| 0 <= j < k ==> traced(#[trigger] trees[j], roots[j], surfaces@, cfg),
        decreases roots.len() - k,
    {
        let tree = trace(roots[k], surfaces, cfg);
        trees.push(tree);
        k = k + 1;
    }
    trees
}

/// Building a source's trees twice with the same source, surfaces,
/// configuration and density gives the same trees.
pub proof fn lemma_rebuild_source_identical(
    first: Seq<RayTree>,
    second: Seq<RayTree>,
    src: BeamSource,
    ss: Seq<Surface>,
    cfg: TraceConfig,
    density: int,
)
    requires
        built(first, src, ss, cfg, density),
        built(second, src, ss, cfg, density),
    ensures
        first.len() == second.len(),
        forall|k: int|
            0 <= k < first.len() ==> {
                &&& (#[trigger] first[k]).branches@ == second[k].branches@
                &&& first[k].root == second[k].root
                &&& first[k].truncated == second[k].truncated
                &&& first[k].stop == second[k].stop
            },
{
    assert forall|k: int| 0 <= k < first.len() implies {
        &&& (#[trigger] first[k]).branches@ == second[k].branches@
        &&& first[k].root == second[k].root
        &&& first[k].truncated == second[k].truncated
        &&& first[k].stop == second[k].stop
    } by {
        assert(traced(first[k], root_ray(src, first.len() as int, k), ss, cfg));
        assert(traced(second[k], root_ray(src, first.len() as int, k), ss, cfg));
    }
}

} // verus!
