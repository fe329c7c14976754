//! The tree store: one set of ray trees per source, rebuilt when that
//! source changes, and all of them rebuilt when the surfaces change.
use vstd::prelude::*;
use crate::beam::{build_trees, built, MAX_DENSITY};
use crate::kernel::all_wf;
use crate::scene::{BeamSource, Surface};
use crate::tree::{RayTree, TraceConfig};

verus! {

/// The scene's surfaces and sources, with the current trees of every source.
pub struct TreeStore {
    surfaces: Vec<Surface>,
    sources: Vec<BeamSource>,
    trees: Vec<Vec<RayTree>>,
    config: TraceConfig,
    density: u32,
}

impl TreeStore {
    /// The surfaces, in the order of the nearest-hit search.
    pub closed spec fn surface_seq(&self) -> Seq<Surface> {
        self.surfaces@
    }

    /// The sources; a source's identity is its position here.
    pub closed spec fn source_seq(&self) -> Seq<BeamSource> {
        self.sources@
    }

    /// The trees of each source, by source identity.
    pub closed spec fn tree_sets(&self) -> Seq<Seq<RayTree>> {
        self.trees@.map_values(|v: Vec<RayTree>| v@)
    }

    /// The configuration of every build.
    pub closed spec fn trace_config(&self) -> TraceConfig {
        self.config
    }

    /// Rays per thousand scene units sampled across each waist.
    pub closed spec fn sample_density(&self) -> int {
        self.density as int
    }

    /// The store's invariant: every source holds exactly the trees that a
    /// build from the current scene gives.
    pub open spec fn wf(&self) -> bool {
        &&& all_wf(self.surface_seq())
        &&& self.trace_config().wf()
        &&& 0 <= self.sample_density() <= MAX_DENSITY
        &&& self.tree_sets().len() == self.source_seq().len()
        &&& forall|j: int| 0 <= j < self.source_seq().len() ==> (#[trigger] self.source_seq()[j]).wf()
        &&& forall|j: int|
            0 <= j < self.source_seq().len() ==> built(
                #[trigger] self.tree_sets()[j],
                self.source_seq()[j],
                self.surface_seq(),
                self.trace_config(),
                self.sample_density(),
            )
    }

    /// A store of the given surfaces and no sources.
    pub fn new(surfaces: Vec<Surface>, config: TraceConfig, density: u32) -> (r: TreeStore)
        requires
            all_wf(surfaces@),
            config.wf(),
            density <= MAX_DENSITY,
        ensures
            r.wf(),
            r.surface_seq() == surfaces@,
            r.source_seq().len() == 0,
            r.trace_config() == config,
            r.sample_density() == density,
    {
        let r = TreeStore { surfaces, sources: Vec::new(), trees: Vec::new(), config, density };
        assert(r.tree_sets() =~= Seq::<Seq<RayTree>>::empty());
        r
    }

    /// Number of sources.
    pub fn source_count(&self) -> (r: usize)
        requires
            self.wf(),
        ensures
            r == self.source_seq().len(),
    {
        self.sources.len()
    }

    /// The current trees of source `id`.
    pub fn trees(&self, id: usize) -> (r: &Vec<RayTree>)
        requires
            self.wf(),
            id < self.source_seq().len(),
        ensures
            r@ == self.tree_sets()[id as int],
    {
        &self.trees[id]
    }

    /// Source `id`.
    pub fn source(&self, id: usize) -> (r: BeamSource)
        requires
            self.wf(),
            id < self.source_seq().len(),
        ensures
            r == self.source_seq()[id as int],
    {
        self.sources[id]
    }

    /// Adds a source, builds its trees, and returns its identity; the
    /// trees of the other sources stay as they were.
    pub fn add_source(&mut self, src: BeamSource) -> (id: usize)
        requires
            old(self).wf(),
            src.wf(),
        ensures
            final(self).wf(),
            id == old(self).source_seq().len(),
            final(self).source_seq() == old(self).source_seq().push(src),
            final(self).surface_seq() == old(self).surface_seq(),
            final(self).trace_config() == old(self).trace_config(),
            final(self).sample_density() == old(self).sample_density(),
            forall|j: int|
                0 <= j < old(self).source_seq().len() ==> #[trigger] final(self).tree_sets()[j]
                    == old(self).tree_sets()[j],
    {
        let trees = build_trees(&src, &self.surfaces, self.config, self.density);
        let id = self.sources.len();
        let ghost before = self.tree_sets();
        self.sources.push(src);
        self.trees.push(trees);
        assert(self.tree_sets() =~= before.push(trees@));
        id
    }

    /// Source `id` changed: its old trees are discarded and rebuilt from
    /// `src`; every other source keeps its trees.
    pub fn update_source(&mut self, id: usize, src: BeamSource)
        requires
            old(self).wf(),
            id < old(self).source_seq().len(),
            src.wf(),
        ensures
            final(self).wf(),
            final(self).source_seq() == old(self).source_seq().update(id as int, src),
            final(self).surface_seq() == old(self).surface_seq(),
            final(self).trace_config() == old(self).trace_config(),
            final(self).sample_density() == old(self).sample_density(),
            forall|j: int|
                0 <= j < old(self).source_seq().len() && j != id ==> #[trigger] final(self).tree_sets()[j]
                    == old(self).tree_sets()[j],
    {
        let trees = build_trees(&src, &self.surfaces, self.config, self.density);
        let ghost before = self.tree_sets();
        self.sources.set(id, src);
        self.trees.set(id, trees);
        assert(self.tree_sets() =~= before.update(id as int, trees@));
    }

    /// The surfaces changed: every source's trees are rebuilt among the new ones.
    pub fn set_surfaces(&mut self, surfaces: Vec<Surface>)
        requires
            old(self).wf(),
            all_wf(surfaces@),
        ensures
            final(self).wf(),
            final(self).surface_seq() == surfaces@,
            final(self).source_seq() == old(self).source_seq(),
            final(self).trace_config() == old(self).trace_config(),
            final(self).sample_density() == old(self).sample_density(),
    {
        let mut all: Vec<Vec<RayTree>> = Vec::new();
        let mut j: usize = 0;
        while j < self.sources.len()
            invariant
                self.wf(),
                all_wf(surfaces@),
                j <= self.sources.len(),
                all.len() == j,
                forall|i: int|
                    0 <= i < j ==> built(
                        (#[trigger] all[i])@,
                        self.source_seq()[i],
                        surfaces@,
                        self.trace_config(),
                        self.sample_density(),
                    ),
            decreases self.sources.len() - j,
        {
            assert(self.source_seq()[j as int].wf());
            let trees = build_trees(&self.sources[j], &surfaces, self.config, self.density);
            all.push(trees);
            j = j + 1;
        }
        self.surfaces = surfaces;
        self.trees = all;
    }
}

} // verus!
