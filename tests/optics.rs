use beams::beam::{build_trees, sample_count, sample_rays, RAY_DENSITY};
use beams::fixed::{floor_div, isqrt, UNIT};
use beams::geometry::{cross2, dot2, Vec2};
use beams::interaction::{interact, Interaction};
use beams::kernel::{intersect, nearest_hit};
use beams::scene::{unit_direction, BeamSource, Ray, SceneError, Surface};
use beams::store::TreeStore;
use beams::tree::{advance, trace, Advance, RayTree, TraceConfig};

const U: i64 = UNIT;

fn pt(x: i64, y: i64) -> Vec2 {
    Vec2::new(x * U, y * U)
}

fn east() -> Vec2 {
    Vec2::new(U, 0)
}

fn dir(x: i64, y: i64) -> Vec2 {
    unit_direction(x as i128 * U as i128, y as i128 * U as i128).unwrap()
}

fn mag(v: Vec2) -> f64 {
    let x = v.x as f64 / U as f64;
    let y = v.y as f64 / U as f64;
    (x * x + y * y).sqrt()
}

#[test]
fn isqrt_exact_values() {
    assert_eq!(isqrt(0), 0);
    assert_eq!(isqrt(15), 3);
    assert_eq!(isqrt(16), 4);
    assert_eq!(isqrt(1 << 100), 1 << 50);
}

#[test]
fn floor_div_rounds_down() {
    assert_eq!(floor_div(7, 2), 3);
    assert_eq!(floor_div(-7, 2), -4);
    assert_eq!(floor_div(-6, 2), -3);
}

#[test]
fn cross_and_dot_products() {
    assert_eq!(cross2(Vec2::new(1, 2), Vec2::new(3, 4)), 1 * 4 - 3 * 2);
    assert_eq!(dot2(Vec2::new(1, 2), Vec2::new(3, 4)), 11);
}

#[test]
fn unit_direction_scales_to_unit() {
    assert_eq!(unit_direction(5, 0), Some(Vec2::new(U, 0)));
    assert_eq!(unit_direction(0, -3), Some(Vec2::new(0, -U)));
    assert_eq!(unit_direction(0, 0), None);
    assert_eq!(unit_direction(3, 1), None);
    let d = dir(3, 4);
    assert_eq!(d, Vec2::new(3 * U / 5, 4 * U / 5));
}

#[test]
fn surface_errors() {
    assert_eq!(Surface::glass(pt(0, 0), pt(0, 0), U).unwrap_err(), SceneError::Degenerate);
    assert_eq!(Surface::glass(pt(0, 0), pt(5000, 0), U).unwrap_err(), SceneError::OutOfScene);
    assert_eq!(Surface::glass(pt(0, 0), pt(1, 0), 0).unwrap_err(), SceneError::BadIndex);
    assert_eq!(Surface::new(pt(0, 0), pt(1, 0), U, U + 1, 0).unwrap_err(), SceneError::BadFraction);
    assert_eq!(Surface::new(pt(0, 0), pt(1, 0), U, 0, -1).unwrap_err(), SceneError::BadFraction);
}

#[test]
fn surface_derived_fields() {
    let s = Surface::glass(pt(500, 600), pt(500, 700), 3 * U / 2).unwrap();
    assert_eq!(s.dp, pt(0, 100));
    assert_eq!(s.length, 100 * U);
    assert_eq!(s.normal, Vec2::new(-U, 0));
    assert_eq!(s.index, 3 * U / 2);
    let b = Surface::blocker(pt(0, 0), pt(10, 0)).unwrap();
    assert_eq!(b.absorption, U);
    assert_eq!(b.index, U);
    assert_eq!(b.normal, Vec2::new(0, U));
}

#[test]
fn source_errors() {
    assert_eq!(BeamSource::new(pt(200, 650), Vec2::new(U, U), 10 * U).unwrap_err(), SceneError::NotUnit);
    assert_eq!(BeamSource::new(pt(200, 650), east(), 0).unwrap_err(), SceneError::BadWaist);
    assert_eq!(BeamSource::new(pt(4095, 0), east(), 10 * U).unwrap_err(), SceneError::BadWaist);
    assert_eq!(BeamSource::new(pt(5000, 0), east(), 10 * U).unwrap_err(), SceneError::OutOfScene);
    let s = BeamSource::new(pt(200, 650), east(), 10 * U).unwrap();
    assert_eq!(s.index, U);
    assert_eq!(s.w, 532);
}

#[test]
fn crossing_lies_on_segment() {
    let ray = Ray::new(pt(200, 650), east(), U);
    let s = Surface::glass(pt(500, 600), pt(500, 700), 3 * U / 2).unwrap();
    let c = intersect(&ray, &s).unwrap();
    assert!(c.den > 0 && 0 <= c.s_num && c.s_num <= c.den);
    assert_eq!(c.t_num, 300 * c.den);
    assert_eq!(2 * c.s_num, c.den);
    let lhs_x = c.den * (ray.p.x - s.p1.x) as i128 + c.t_num * ray.l.x as i128;
    let lhs_y = c.den * (ray.p.y - s.p1.y) as i128 + c.t_num * ray.l.y as i128;
    assert_eq!(lhs_x, c.s_num * s.dp.x as i128);
    assert_eq!(lhs_y, c.s_num * s.dp.y as i128);
}

#[test]
fn misses_outside_segment_or_behind() {
    let s = Surface::glass(pt(500, 600), pt(500, 700), 3 * U / 2).unwrap();
    assert!(intersect(&Ray::new(pt(200, 750), east(), U), &s).is_none());
    assert!(intersect(&Ray::new(pt(600, 650), east(), U), &s).is_none());
}

#[test]
fn parallel_ray_has_no_crossing() {
    let s = Surface::glass(pt(0, 0), pt(10, 0), U).unwrap();
    assert!(intersect(&Ray::new(pt(-5, 0), east(), U), &s).is_none());
    assert!(intersect(&Ray::new(pt(-5, 1), east(), U), &s).is_none());
}

#[test]
fn normal_incidence_refracts_straight_into_glass() {
    let ray = Ray::new(pt(200, 650), east(), U);
    let s = Surface::glass(pt(500, 600), pt(500, 700), 3 * U / 2).unwrap();
    let c = intersect(&ray, &s).unwrap();
    match interact(&ray, &s, c) {
        Interaction::Refracted(child) => {
            assert_eq!(child.p, pt(500, 650));
            assert_eq!(child.index, 3 * U / 2);
            assert_eq!(child.l, east());
            assert_eq!(child.i, U);
        }
        other => panic!("expected refraction, got {:?}", other),
    }
}

#[test]
fn oblique_ray_bends_toward_normal() {
    let l = dir(3, 1);
    let ray = Ray::new(pt(200, 650), l, U);
    let s = Surface::glass(pt(500, 600), pt(500, 800), 3 * U / 2).unwrap();
    let c = intersect(&ray, &s).unwrap();
    match interact(&ray, &s, c) {
        Interaction::Refracted(child) => {
            assert_eq!(child.p.x, 500 * U);
            assert!((child.p.y - 750 * U).abs() < U / 1000);
            assert!(child.l.y.abs() < ray.l.y.abs());
            assert!(child.l.x > 0);
            let sin_in = ray.l.y as f64 / U as f64;
            let sin_out = child.l.y as f64 / U as f64;
            assert!((sin_out - sin_in / 1.5).abs() < 1e-4);
            assert!((mag(child.l) - 1.0).abs() < 1e-5);
        }
        other => panic!("expected refraction, got {:?}", other),
    }
}

#[test]
fn leaving_glass_bends_away_and_total_reflection_stops() {
    let l = dir(3, 1);
    let inside = Ray::new(pt(200, 650), l, 3 * U / 2);
    let s = Surface::glass(pt(500, 600), pt(500, 800), U).unwrap();
    let c = intersect(&inside, &s).unwrap();
    match interact(&inside, &s, c) {
        Interaction::Refracted(child) => assert!(child.l.y.abs() > inside.l.y.abs()),
        other => panic!("expected refraction, got {:?}", other),
    }
    let steep = dir(1, 1);
    let ray = Ray::new(pt(200, 500), steep, 3 * U / 2);
    let c = intersect(&ray, &s).unwrap();
    assert!(matches!(interact(&ray, &s, c), Interaction::TotalInternalReflection));
}

#[test]
fn blocker_absorbs_at_any_angle() {
    let b = Surface::blocker(pt(500, 400), pt(500, 1000)).unwrap();
    for (dx, dy) in [(1, 0), (3, 1), (2, -1)] {
        let ray = Ray::new(pt(200, 700), dir(dx, dy), U);
        let c = intersect(&ray, &b).unwrap();
        assert!(matches!(interact(&ray, &b, c), Interaction::Absorbed));
        let tree = trace(ray, &vec![b], TraceConfig::standard());
        assert_eq!(tree.branches.len(), 0);
        assert!(!tree.truncated);
        assert!(tree.stop.is_some());
    }
}

#[test]
fn nearest_hit_prefers_closest_then_first() {
    let ray = Ray::new(pt(0, 50), east(), U);
    let far = Surface::glass(pt(300, 0), pt(300, 100), U).unwrap();
    let near = Surface::glass(pt(100, 0), pt(100, 100), U).unwrap();
    let near_again = Surface::blocker(pt(100, 0), pt(100, 100)).unwrap();
    let (k, _) = nearest_hit(&ray, &vec![far, near, near_again], 104858).unwrap();
    assert_eq!(k, 1);
    let (k, _) = nearest_hit(&ray, &vec![near_again, near], 104858).unwrap();
    assert_eq!(k, 0);
    let behind = Surface::glass(pt(-10, 0), pt(-10, 100), U).unwrap();
    assert!(nearest_hit(&ray, &vec![behind], 104858).is_none());
}

#[test]
fn hits_below_floor_are_ignored() {
    let ray = Ray::new(pt(100, 50), east(), U);
    let here = Surface::glass(pt(100, 0), pt(100, 100), U).unwrap();
    assert!(nearest_hit(&ray, &vec![here], 104858).is_none());
    assert!(nearest_hit(&ray, &vec![here], 0).is_none());
}

#[test]
fn escaping_ray_ends_cleanly() {
    let ray = Ray::new(pt(0, 50), east(), U);
    assert!(matches!(advance(&ray, &vec![], 104858), Advance::Escaped));
    let tree = trace(ray, &vec![], TraceConfig::standard());
    assert_eq!(tree.branches.len(), 0);
    assert!(!tree.truncated);
    assert!(tree.stop.is_none());
    assert_eq!(RayTree::new(ray).branches.len(), 0);
}

fn slabs(n: i64) -> Vec<Surface> {
    let mut v = Vec::new();
    for k in 0..n {
        let index = if k % 2 == 0 { 3 * U / 2 } else { U };
        v.push(Surface::glass(pt(100 + 10 * k, 0), pt(100 + 10 * k, 100), index).unwrap());
    }
    v
}

#[test]
fn depth_bound_truncates_chain() {
    let ray = Ray::new(pt(0, 50), east(), U);
    let cfg = TraceConfig { max_depth: 3, min_t: 104858 };
    let tree = trace(ray, &slabs(10), cfg);
    assert_eq!(tree.branches.len(), 3);
    assert!(tree.truncated);
    assert!(tree.stop.is_none());
    let full = trace(ray, &slabs(10), TraceConfig::standard());
    assert_eq!(full.branches.len(), 10);
    assert!(!full.truncated);
}

#[test]
fn chain_starts_at_hit_points_and_segments_follow() {
    let ray = Ray::new(pt(0, 50), east(), U);
    let mut ss = slabs(2);
    ss.push(Surface::blocker(pt(400, 0), pt(400, 100)).unwrap());
    let tree = trace(ray, &ss, TraceConfig::standard());
    assert_eq!(tree.branches.len(), 2);
    assert_eq!(tree.branches[0].p, pt(100, 50));
    assert_eq!(tree.branches[1].p, pt(110, 50));
    assert_eq!(tree.branches[0].index, 3 * U / 2);
    assert_eq!(tree.branches[1].index, U);
    assert_eq!(tree.stop, Some(pt(400, 50)));
    let segs = tree.segments();
    assert_eq!(segs, vec![(pt(0, 50), pt(100, 50)), (pt(100, 50), pt(110, 50)), (pt(110, 50), pt(400, 50))]);
}

#[test]
fn intensity_never_grows() {
    let ray = Ray::new(pt(0, 50), dir(10, 1), U);
    let mut ss = Vec::new();
    for k in 0..5 {
        ss.push(Surface::new(pt(100 + 20 * k, 0), pt(100 + 20 * k, 100), 3 * U / 2, U / 4, 0).unwrap());
    }
    let tree = trace(ray, &ss, TraceConfig::standard());
    assert!(tree.branches.len() >= 2);
    let mut prev = ray.i;
    for b in &tree.branches {
        assert!(b.i <= prev);
        prev = b.i;
    }
    assert_eq!(tree.branches[0].i, 3 * U / 4);
    assert!(tree.branches[1].i < tree.branches[0].i);
}

#[test]
fn every_direction_is_unit() {
    let ray = Ray::new(pt(0, 50), dir(10, 3), U);
    let ss = vec![
        Surface::glass(pt(100, 0), pt(120, 200), 3 * U / 2).unwrap(),
        Surface::glass(pt(160, 0), pt(150, 200), U).unwrap(),
        Surface::glass(pt(200, 0), pt(230, 200), 2 * U).unwrap(),
    ];
    let tree = trace(ray, &ss, TraceConfig::standard());
    assert!(tree.branches.len() >= 2);
    for b in &tree.branches {
        assert!((mag(b.l) - 1.0).abs() < 1e-5);
    }
}

#[test]
fn rebuild_gives_same_tree() {
    let ray = Ray::new(pt(0, 50), dir(10, 3), U);
    let ss = slabs(4);
    let a = trace(ray, &ss, TraceConfig::standard());
    let b = trace(ray, &ss, TraceConfig::standard());
    assert_eq!(a.branches.len(), b.branches.len());
    for k in 0..a.branches.len() {
        assert_eq!(a.branches[k].p, b.branches[k].p);
        assert_eq!(a.branches[k].l, b.branches[k].l);
    }
    assert_eq!(a.stop, b.stop);
}

#[test]
fn sampling_count_and_density() {
    assert_eq!(sample_count(10 * U, RAY_DENSITY), 2);
    assert!(sample_count(10 * U, RAY_DENSITY / 2) <= 2);
    assert_eq!(sample_count(10 * U, RAY_DENSITY / 2), 1);
    let src = BeamSource::new(pt(200, 650), east(), 10 * U).unwrap();
    let rays = sample_rays(&src, RAY_DENSITY);
    assert_eq!(rays.len(), 2);
    assert_eq!(rays[0].p, pt(200, 645));
    assert_eq!(rays[1].p, pt(200, 655));
    assert_eq!(rays[0].l, east());
    let three = sample_rays(&src, 300);
    assert_eq!(three.len(), 3);
    assert_eq!(three[1].p, pt(200, 650));
}

#[test]
fn store_rebuilds_only_changed_source() {
    let glass = Surface::glass(pt(500, 600), pt(500, 700), 3 * U / 2).unwrap();
    let wall = Surface::blocker(pt(900, 0), pt(900, 900)).unwrap();
    let mut store = TreeStore::new(vec![glass, wall], TraceConfig::standard(), RAY_DENSITY);
    let a = store.add_source(BeamSource::new(pt(200, 650), east(), 10 * U).unwrap());
    let b = store.add_source(BeamSource::new(pt(200, 200), east(), 10 * U).unwrap());
    assert_eq!((a, b), (0, 1));
    assert_eq!(store.source_count(), 2);
    assert_eq!(store.trees(a).len(), 2);
    assert_eq!(store.trees(a)[0].branches.len(), 1);
    assert_eq!(store.trees(b)[0].branches.len(), 0);
    assert_eq!(store.trees(b)[0].stop, Some(pt(900, 195)));
    let before_b = store.trees(b)[0].stop;
    store.update_source(a, BeamSource::new(pt(200, 300), east(), 10 * U).unwrap());
    assert_eq!(store.trees(a)[0].branches.len(), 0);
    assert_eq!(store.trees(b)[0].stop, before_b);
    assert_eq!(store.source(a).pos, pt(200, 300));
    store.set_surfaces(vec![glass]);
    assert_eq!(store.trees(b)[0].stop, None);
    let built = build_trees(&store.source(b), &vec![glass], TraceConfig::standard(), RAY_DENSITY);
    assert_eq!(built.len(), store.trees(b).len());
}
