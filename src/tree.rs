//! The ray-tree builder: from one root ray, repeated nearest-hit search and
//! interaction, up to a depth bound.
use vstd::prelude::*;
use crate::geometry::Vec2;
use crate::interaction::{hit_point, interact, lemma_refracted_child, spec_interact, Interaction};
use crate::kernel::{all_wf, min_t_ok, nearest_hit, spec_nearest};
use crate::scene::{Ray, Surface};

verus! {

/// Bounce bound used unless the caller picks another.
pub const DEFAULT_MAX_DEPTH: usize = 64;

/// Self-intersection floor used unless the caller picks another
/// (0.1 scene units, in fixed-point steps).
pub const DEFAULT_MIN_T: i64 = 104858;

/// Parameters of a propagation pass.
#[derive(Clone, Copy, Debug, PartialEq, Eq, Structural)]
pub struct TraceConfig {
    /// The most child rays that one chain may hold.
    pub max_depth: usize,
    /// Hits with a ray parameter at or below `min_t / UNIT` are ignored.
    pub min_t: i64,
}

impl TraceConfig {
    /// The configuration's invariant.
    pub open spec fn wf(self) -> bool {
        min_t_ok(self.min_t as int)
    }

    /// 64 bounces and a floor of 0.1 scene units.
    pub fn standard() -> (r: TraceConfig)
        ensures
            r.max_depth == DEFAULT_MAX_DEPTH,
            r.min_t == DEFAULT_MIN_T,
            r.wf(),
    {
        TraceConfig { max_depth: DEFAULT_MAX_DEPTH, min_t: DEFAULT_MIN_T }
    }
}

/// One step of propagation.
#[derive(Clone, Copy, Debug)]
pub enum Advance {
    /// No surface lies ahead: the ray leaves the scene.
    Escaped,
    /// The ray ends on a surface at this point.
    Stopped(Vec2),
    /// The ray goes on as this child.
    Continued(Ray),
}

/// The step that `ray` takes among the surfaces `ss`.
pub open spec fn spec_advance(ray: Ray, ss: Seq<Surface>, min_t: int) -> Advance {
    match spec_nearest(ray, ss, min_t) {
        None => Advance::Escaped,
        Some((k, c)) => match spec_interact(ray, ss[k], c) {
            Interaction::Refracted(child) => Advance::Continued(child),
            _ => Advance::Stopped(hit_point(ss[k], c)),
        },
    }
}

/// The chain of at most `n` child rays that grows from `ray`.
pub open spec fn spec_chain(ray: Ray, ss: Seq<Surface>, min_t: int, n: nat) -> Seq<Ray>
    decreases n,
{
    if n == 0 {
        Seq::empty()
    } else {
        match spec_advance(ray, ss, min_t) {
            Advance::Continued(child) => seq![child] + spec_chain(child, ss, min_t, (n - 1) as nat),
            _ => Seq::empty(),
        }
    }
}

/// The last ray of a chain: its last branch, or the root when it has none.
pub open spec fn last_ray(root: Ray, branches: Seq<Ray>) -> Ray {
    if branches.len() == 0 {
        root
    } else {
        branches.last()
    }
}

/// The surfaces' order of the nearest-hit search is the sequence's order,
/// and every surface is valid.
pub open spec fn scene_ok(ss: Seq<Surface>) -> bool {
    all_wf(ss)
}

/// A chain of refractions from one root ray.
#[derive(Debug)]
pub struct RayTree {
    pub root: Ray,
    /// Each branch starts at the hit point of the ray before it.
    pub branches: Vec<Ray>,
    /// The depth bound cut the chain while its last ray still went on.
    pub truncated: bool,
    /// Where the last ray ended on a surface, if it did.
    pub stop: Option<Vec2>,
}

/// `tree` is the chain that `root` grows among `ss` under `cfg`.
pub open spec fn traced(tree: RayTree, root: Ray, ss: Seq<Surface>, cfg: TraceConfig) -> bool {
    let last = last_ray(root, tree.branches@);
    &&& tree.root == root
    &&& tree.branches@ == spec_chain(root, ss, cfg.min_t as int, cfg.max_depth as nat)
    &&& tree.truncated == (tree.branches.len() == cfg.max_depth
        && spec_advance(last, ss, cfg.min_t as int) is Continued)
    &&& tree.stop == (if tree.branches.len() < cfg.max_depth {
        match spec_advance(last, ss, cfg.min_t as int) {
            Advance::Stopped(p) => Some(p),
            _ => None,
        }
    } else {
        None
    })
}

/// The step that `ray` takes among `surfaces`.
pub fn advance(ray: &Ray, surfaces: &Vec<Surface>, min_t: i64) -> (r: Advance)
    requires
        ray.wf(),
        all_wf(surfaces@),
        min_t_ok(min_t as int),
    ensures
        r == spec_advance(*ray, surfaces@, min_t as int),
        r matches Advance::Continued(child) ==> child.wf() && child.i <= ray.i,
{
    match nearest_hit(ray, surfaces, min_t) {
        None => Advance::Escaped,
        Some((k, c)) => {
            proof {
                crate::kernel::lemma_nearest_in_range(*ray, surfaces@, min_t as int);
            }
            match interact(ray, &surfaces[k], c) {
                Interaction::Refracted(child) => Advance::Continued(child),
                _ => {
                    Advance::Stopped(crate::interaction::surface_point(&surfaces[k], c))
                },
            }
        },
    }
}

/// The corners of a tree's path: the root's origin, each branch's origin,
/// and the stop point if the last ray ended on a surface.
pub open spec fn path_points(tree: RayTree) -> Seq<Vec2> {
    let starts = seq![tree.root.p] + tree.branches@.map_values(|r: Ray| r.p);
    match tree.stop {
        Some(q) => starts.push(q),
        None => starts,
    }
}

impl RayTree {
    /// The drawable segments of the path, from each corner to the next.
    pub fn segments(&self) -> (r: Vec<(Vec2, Vec2)>)
        ensures
            r.len() == path_points(*self).len() - 1,
            forall|k: int|
                0 <= k < r.len() ==> #[trigger] r[k] == (path_points(*self)[k], path_points(
                    *self,
                )[k + 1]),
    {
        let ghost pts = path_points(*self);
        let mut r: Vec<(Vec2, Vec2)> = Vec::new();
        let mut from = self.root.p;
        let mut k: usize = 0;
        while k < self.branches.len()
            invariant
                pts == path_points(*self),
                k <= self.branches.len(),
                r.len() == k,
                from == pts[k as int],
                forall|j: int| 0 <= j < k ==> #[trigger] r[j] == (pts[j], pts[j + 1]),
            decreases self.branches.len() - k,
        {
            let to = self.branches[k].p;
            assert(pts[k + 1] == to);
            r.push((from, to));
            from = to;
            k = k + 1;
        }
        if let Some(q) = self.stop {
            assert(pts[k + 1] == q);
            r.push((from, q));
        }
        r
    }

    /// A tree of the root ray alone.
    pub fn new(ray: Ray) -> (r: RayTree)
        ensures
            r.root == ray,
            r.branches@.len() == 0,
            !r.truncated,
            r.stop is None,
    {
        RayTree { root: ray, branches: Vec::new(), truncated: false, stop: None }
    }
}

/// Grows the chain of `root` among `surfaces`: nearest hit, then
/// interaction, until the ray escapes, stops on a surface, or the chain
/// holds `cfg.max_depth` rays.
pub fn trace(root: Ray, surfaces: &Vec<Surface>, cfg: TraceConfig) -> (tree: RayTree)
    requires
        root.wf(),
        all_wf(surfaces@),
        cfg.wf(),
    ensures
        traced(tree, root, surfaces@, cfg),
        tree.branches.len() <= cfg.max_depth,
{
    let ghost ss = surfaces@;
    let ghost min_t = cfg.min_t as int;
    let ghost full = spec_chain(root, ss, min_t, cfg.max_depth as nat);
    let mut branches: Vec<Ray> = Vec::new();
    let mut cur = root;
    let mut stop: Option<Vec2> = None;
    let mut done = false;
    while !done && branches.len() < cfg.max_depth
        invariant
            all_wf(ss),
            ss == surfaces@,
            min_t == cfg.min_t,
            cfg.wf(),
            full == spec_chain(root, ss, min_t, cfg.max_depth as nat),
            cur.wf(),
            cur == last_ray(root, branches@),
            branches.len() <= cfg.max_depth,
            !done ==> full == branches@ + spec_chain(
                cur,
                ss,
                min_t,
                (cfg.max_depth - branches.len()) as nat,
            ),
            !done ==> stop is None,
            done ==> {
                &&& full == branches@
                &&& branches.len() < cfg.max_depth
                &&& !(spec_advance(cur, ss, min_t) is Continued)
                &&& stop == match spec_advance(cur, ss, min_t) {
                    Advance::Stopped(p) => Some(p),
                    _ => None,
                }
            },
        decreases cfg.max_depth - branches.len(), if done { 0int } else { 1int },
    {
        let ghost k = (cfg.max_depth - branches.len()) as nat;
        assert(k > 0);
        match advance(&cur, surfaces, cfg.min_t) {
            Advance::Continued(child) => {
                let ghost before = branches@;
                assert(spec_chain(cur, ss, min_t, k) == seq![child] + spec_chain(
                    child,
                    ss,
                    min_t,
                    (k - 1) as nat,
                ));
                branches.push(child);
                assert(before + (seq![child] + spec_chain(child, ss, min_t, (k - 1) as nat))
                    =~= branches@ + spec_chain(child, ss, min_t, (k - 1) as nat));
                cur = child;
            },
            Advance::Escaped => {
                assert(spec_chain(cur, ss, min_t, k) =~= Seq::<Ray>::empty());
                assert(full =~= branches@);
                done = true;
            },
            Advance::Stopped(p) => {
                assert(spec_chain(cur, ss, min_t, k) =~= Seq::<Ray>::empty());
                assert(full =~= branches@);
                stop = Some(p);
                done = true;
            },
        }
    }
    let mut truncated = false;
    if !done {
        assert(spec_chain(cur, ss, min_t, 0) =~= Seq::<Ray>::empty());
        assert(full =~= branches@);
        if let Advance::Continued(_) = advance(&cur, surfaces, cfg.min_t) {
            truncated = true;
        }
    }
    RayTree { root, branches, truncated, stop }
}

/// A step that goes on yields a valid child no brighter than its parent.
pub proof fn lemma_advance_child(ray: Ray, ss: Seq<Surface>, min_t: int)
    requires
        ray.wf(),
        all_wf(ss),
    ensures
        spec_advance(ray, ss, min_t) matches Advance::Continued(child) ==> child.wf() && child.i
            <= ray.i,
{
    crate::kernel::lemma_nearest_in_range(ray, ss, min_t);
    if let Some((k, c)) = spec_nearest(ray, ss, min_t) {
        lemma_refracted_child(ray, ss[k], c);
    }
}

/// Every ray of a chain is valid, and the chain holds at most `n` rays.
pub proof fn lemma_chain_valid(root: Ray, ss: Seq<Surface>, min_t: int, n: nat)
    requires
        root.wf(),
        all_wf(ss),
    ensures
        spec_chain(root, ss, min_t, n).len() <= n,
        forall|i: int|
            0 <= i < spec_chain(root, ss, min_t, n).len() ==> (#[trigger] spec_chain(
                root,
                ss,
                min_t,
                n,
            )[i]).wf(),
        spec_chain(root, ss, min_t, n).len() > 0 ==> spec_chain(root, ss, min_t, n)[0].i <= root.i,
        forall|i: int|
            0 < i < spec_chain(root, ss, min_t, n).len() ==> (#[trigger] spec_chain(
                root,
                ss,
                min_t,
                n,
            )[i]).i <= spec_chain(root, ss, min_t, n)[i - 1].i,
    decreases n,
{
    if n > 0 {
        lemma_advance_child(root, ss, min_t);
        if let Advance::Continued(child) = spec_advance(root, ss, min_t) {
            lemma_chain_valid(child, ss, min_t, (n - 1) as nat);
            let rest = spec_chain(child, ss, min_t, (n - 1) as nat);
            let all = spec_chain(root, ss, min_t, n);
            assert(all == seq![child] + rest);
            assert forall|i: int| 0 <= i < all.len() implies (#[trigger] all[i]).wf() by {
                if i > 0 {
                    assert(all[i] == rest[i - 1]);
                }
            }
            assert forall|i: int| 0 < i < all.len() implies (#[trigger] all[i]).i <= all[i - 1].i by {
                assert(all[i] == rest[i - 1]);
                if i > 1 {
                    assert(all[i - 1] == rest[i - 2]);
                }
            }
        }
    }
}

/// Energy never grows along a chain: each ray's intensity is at most that
/// of the ray it came from, the root's included.
pub proof fn lemma_intensity_non_increasing(tree: RayTree, root: Ray, ss: Seq<Surface>, cfg: TraceConfig)
    requires
        root.wf(),
        all_wf(ss),
        traced(tree, root, ss, cfg),
    ensures
        forall|i: int|
            0 <= i < tree.branches@.len() ==> #[trigger] tree.branches@[i].i <= (if i == 0 {
                root
            } else {
                tree.branches@[i - 1]
            }).i,
{
    lemma_chain_valid(root, ss, cfg.min_t as int, cfg.max_depth as nat);
}

/// Every ray that a build produces has a unit direction.
pub proof fn lemma_directions_unit(tree: RayTree, root: Ray, ss: Seq<Surface>, cfg: TraceConfig)
    requires
        root.wf(),
        all_wf(ss),
        traced(tree, root, ss, cfg),
    ensures
        forall|i: int|
            0 <= i < tree.branches@.len() ==> crate::geometry::is_unit(#[trigger] tree.branches@[i].l),
{
    lemma_chain_valid(root, ss, cfg.min_t as int, cfg.max_depth as nat);
    assert forall|i: int| 0 <= i < tree.branches@.len() implies crate::geometry::is_unit(
        #[trigger] tree.branches@[i].l,
    ) by {
        assert(tree.branches@[i].wf());
    }
}

/// Building twice from the same root, surfaces and configuration gives the
/// same tree: the same branches, end point and truncation mark.
pub proof fn lemma_rebuild_identical(
    first: RayTree,
    second: RayTree,
    root: Ray,
    ss: Seq<Surface>,
    cfg: TraceConfig,
)
    requires
        traced(first, root, ss, cfg),
        traced(second, root, ss, cfg),
    ensures
        first.branches@ == second.branches@,
        first.truncated == second.truncated,
        first.stop == second.stop,
        first.root == second.root,
{
}

} // verus!
