use vstd::prelude::*;

use crate::bridge::{
    first_missing_resource, lemma_none_missing, lemma_setup_keeps_resources,
    lemma_sync_copies_resources, lemma_sync_fails_iff_missing, resource_round_trip, setup_all,
    setup_syncers, sync_all, sync_syncers, EntityBimap, EntityEvents, SyncDirection, Syncer, World,
    WorldView,
};
use crate::graph::{
    compile, compile_model, operation_views, Bundle, BuildError, CompiledGraph, CompiledView,
    Failure, NodeView, Operation, OperationView, Step, StepView, texts, lemma_operation_views_push, edge_named,
};
use crate::laws::{compiled_edges_respect_dependencies, edges_backward, edges_respected};

verus! {

/// The secondary world of the bridge, its syncers and the entity pairs.
pub struct MigrationState {
    pub world: World,
    pub syncers: Vec<Syncer>,
    pub entities: EntityBimap,
}

/// Syncers and secondary-world operations registered as one group.
pub struct SyncBundle {
    pub syncers: Vec<Syncer>,
    pub operations: Vec<Operation>,
}

/// What one tick runs of a compiled graph: the parallel units with the wave
/// each starts in (a unit starts only after every unit of an earlier wave
/// that it depends on has completed), then the thread-local units in order.
pub struct Schedule {
    pub units: Vec<u64>,
    pub waves: Vec<usize>,
    pub thread_local: Vec<u64>,
}

pub open spec fn node_ids(nodes: Seq<NodeView>) -> Seq<u64> {
    nodes.map_values(|n: NodeView| n.id)
}

/// Node `i` starts one wave after the latest of its edges' targets, or in
/// the first wave when it has no edge.
pub open spec fn wave_fits(c: CompiledView, waves: Seq<usize>, i: int) -> bool {
    &&& forall|t: int|
        0 <= t < c.nodes[i].after.len() ==> waves[#[trigger] c.nodes[i].after[t]] < waves[i]
    &&& (waves[i] == 0 || exists|t: int|
        0 <= t < c.nodes[i].after.len() && waves[i] == waves[#[trigger] c.nodes[i].after[t]] + 1)
}

/// The schedule of a graph: every unit in node order with its wave, and the
/// thread-local units after them, in registration order.
pub open spec fn schedule_of(c: CompiledView, s: Schedule) -> bool {
    &&& s.units@ == node_ids(c.nodes)
    &&& s.waves@.len() == c.nodes.len()
    &&& forall|i: int| 0 <= i < c.nodes.len() ==> #[trigger] wave_fits(c, s.waves@, i)
    &&& s.thread_local@ == c.thread_local
}

/// The units of `units` whose wave in `waves` is `w`, in order.
pub open spec fn wave_members(units: Seq<u64>, waves: Seq<usize>, w: usize) -> Seq<u64>
    decreases units.len(),
{
    if units.len() == 0 || waves.len() != units.len() {
        Seq::empty()
    } else {
        let pre = wave_members(units.drop_last(), waves.drop_last(), w);
        if waves.last() == w {
            pre.push(units.last())
        } else {
            pre
        }
    }
}

impl Schedule {
    /// The parallel units that start in wave `w`, in node order.
    pub fn wave(&self, w: usize) -> (r: Vec<u64>)
        requires
            self.units@.len() == self.waves@.len(),
        ensures
            r@ == wave_members(self.units@, self.waves@, w),
    {
        let mut r: Vec<u64> = Vec::new();
        let mut i: usize = 0;
        while i < self.units.len()
            invariant
                i <= self.units@.len(),
                self.units@.len() == self.waves@.len(),
                r@ == wave_members(
                    self.units@.subrange(0, i as int),
                    self.waves@.subrange(0, i as int),
                    w,
                ),
            decreases self.units.len() - i,
        {
            proof {
                assert(self.units@.subrange(0, i + 1).drop_last() =~= self.units@.subrange(
                    0,
                    i as int,
                ));
                assert(self.waves@.subrange(0, i + 1).drop_last() =~= self.waves@.subrange(
                    0,
                    i as int,
                ));
            }
            if self.waves[i] == w {
                r.push(self.units[i]);
            }
            i = i + 1;
        }
        assert(self.units@.subrange(0, i as int) =~= self.units@);
        assert(self.waves@.subrange(0, i as int) =~= self.waves@);
        r
    }
}

/// Computes the schedule of a compiled graph.
pub fn schedule(graph: &CompiledGraph) -> (r: Schedule)
    requires
        edges_backward(graph@),
    ensures
        schedule_of(graph@, r),
{
    let ghost c = graph@;
    let mut units: Vec<u64> = Vec::new();
    let mut waves: Vec<usize> = Vec::new();
    let mut i: usize = 0;
    while i < graph.nodes.len()
        invariant
            c == graph@,
            edges_backward(c),
            i <= graph.nodes.len(),
            units@ == node_ids(c.nodes).subrange(0, i as int),
            waves@.len() == i,
            forall|j: int| 0 <= j < i ==> waves@[j] <= j,
            forall|j: int| 0 <= j < i ==> #[trigger] wave_fits(c, waves@, j),
        decreases graph.nodes.len() - i,
    {
        let node = &graph.nodes[i];
        let ghost n = c.nodes[i as int];
        assert(n.after == node.after@.map_values(|x: usize| x as int));
        let mut w: usize = 0;
        let mut t: usize = 0;
        while t < node.after.len()
            invariant
                c == graph@,
                edges_backward(c),
                i < graph.nodes.len(),
                node == &graph.nodes[i as int],
                n == c.nodes[i as int],
                n.after == node.after@.map_values(|x: usize| x as int),
                waves@.len() == i,
                forall|j: int| 0 <= j < i ==> waves@[j] <= j,
                t <= node.after.len(),
                w <= i,
                forall|u: int| 0 <= u < t ==> waves@[#[trigger] n.after[u]] < w,
                w == 0 || exists|u: int| 0 <= u < t && w == waves@[#[trigger] n.after[u]] + 1,
            decreases node.after.len() - t,
        {
            let d = node.after[t];
            assert(n.after[t as int] == d as int);
            assert(0 <= n.after[t as int] < i);
            if waves[d] + 1 > w {
                w = waves[d] + 1;
            }
            t = t + 1;
        }
        proof {
            let ws = waves@.push(w);
            assert forall|j: int| 0 <= j <= i implies #[trigger] wave_fits(c, ws, j) by {
                if j < i {
                    assert(wave_fits(c, waves@, j));
                    assert forall|u: int| 0 <= u < c.nodes[j].after.len() implies ws[#[trigger] c.nodes[j].after[u]]
                        == waves@[c.nodes[j].after[u]] by {
                        assert(0 <= c.nodes[j].after[u] < j);
                    }
                    if waves@[j] != 0 {
                        let u = choose|u: int|
                            0 <= u < c.nodes[j].after.len() && waves@[j]
                                == waves@[#[trigger] c.nodes[j].after[u]] + 1;
                        assert(ws[c.nodes[j].after[u]] == waves@[c.nodes[j].after[u]]);
                    }
                } else {
                    assert forall|u: int| 0 <= u < n.after.len() implies ws[#[trigger] n.after[u]]
                        == waves@[n.after[u]] by {
                        assert(0 <= n.after[u] < i);
                    }
                    if w != 0 {
                        let u = choose|u: int| 0 <= u < n.after.len() && w == waves@[#[trigger] n.after[u]] + 1;
                        assert(ws[n.after[u]] == waves@[n.after[u]]);
                    }
                }
            }
        }
        units.push(node.id);
        waves.push(w);
        assert(units@ =~= node_ids(c.nodes).subrange(0, i + 1));
        i = i + 1;
    }
    assert(units@ =~= node_ids(c.nodes));
    let mut thread_local: Vec<u64> = Vec::new();
    let mut k: usize = 0;
    while k < graph.thread_local.len()
        invariant
            c == graph@,
            k <= graph.thread_local.len(),
            thread_local@ == c.thread_local.subrange(0, k as int),
        decreases graph.thread_local.len() - k,
    {
        thread_local.push(graph.thread_local[k]);
        k = k + 1;
        assert(thread_local@ =~= c.thread_local.subrange(0, k as int));
    }
    assert(thread_local@ =~= c.thread_local);
    Schedule { units, waves, thread_local }
}

/// The `t`-th declared dependency of node `i` names an earlier node, which
/// starts in an earlier wave.
pub open spec fn dependency_earlier(c: CompiledView, waves: Seq<usize>, i: int, t: int) -> bool {
    let d = c.nodes[i].after[t];
    &&& 0 <= d < i
    &&& c.nodes[d].name == c.nodes[i].dependencies[t]
    &&& waves[d] < waves[i]
}

/// In the schedule of a compiled graph, every unit starts in a later wave
/// than the unit that each of its declared dependencies names, so no unit
/// begins before its named dependencies have completed.
pub proof fn dependencies_start_in_earlier_waves(c: CompiledView, s: Schedule)
    requires
        edges_respected(c),
        schedule_of(c, s),
    ensures
        forall|i: int, t: int|
            0 <= i < c.nodes.len() && 0 <= t < c.nodes[i].dependencies.len()
                ==> #[trigger] dependency_earlier(c, s.waves@, i, t),
{
    assert forall|i: int, t: int|
        0 <= i < c.nodes.len() && 0 <= t < c.nodes[i].dependencies.len()
            implies #[trigger] dependency_earlier(c, s.waves@, i, t) by {
        assert(edge_named(c.nodes, i, t));
        assert(wave_fits(c, s.waves@, i));
    }
}

proof fn lemma_waves_agree(c: CompiledView, w1: Seq<usize>, w2: Seq<usize>, n: int)
    requires
        edges_backward(c),
        w1.len() == c.nodes.len(),
        w2.len() == c.nodes.len(),
        0 <= n <= c.nodes.len(),
        forall|i: int| 0 <= i < c.nodes.len() ==> #[trigger] wave_fits(c, w1, i),
        forall|i: int| 0 <= i < c.nodes.len() ==> #[trigger] wave_fits(c, w2, i),
    ensures
        forall|i: int| 0 <= i < n ==> w1[i] == w2[i],
    decreases n,
{
    if n > 0 {
        lemma_waves_agree(c, w1, w2, n - 1);
        let i = n - 1;
        assert(wave_fits(c, w1, i));
        assert(wave_fits(c, w2, i));
        if w1[i] != 0 {
            let t = choose|t: int|
                0 <= t < c.nodes[i].after.len() && w1[i] == w1[#[trigger] c.nodes[i].after[t]] + 1;
            assert(0 <= c.nodes[i].after[t] < i);
        }
        if w2[i] != 0 {
            let t = choose|t: int|
                0 <= t < c.nodes[i].after.len() && w2[i] == w2[#[trigger] c.nodes[i].after[t]] + 1;
            assert(0 <= c.nodes[i].after[t] < i);
        }
        if w1[i] == 0 && w2[i] != 0 {
            let t = choose|t: int|
                0 <= t < c.nodes[i].after.len() && w2[i] == w2[#[trigger] c.nodes[i].after[t]] + 1;
            assert(0 <= c.nodes[i].after[t] < i);
        }
        if w2[i] == 0 && w1[i] != 0 {
            let t = choose|t: int|
                0 <= t < c.nodes[i].after.len() && w1[i] == w1[#[trigger] c.nodes[i].after[t]] + 1;
            assert(0 <= c.nodes[i].after[t] < i);
        }
    }
}

/// A graph has one schedule: every tick of the same game data runs the
/// same units in the same waves, and the same thread-local units in the
/// same order.
pub proof fn every_tick_has_the_same_schedule(c: CompiledView, s1: Schedule, s2: Schedule)
    requires
        edges_backward(c),
        schedule_of(c, s1),
        schedule_of(c, s2),
    ensures
        s1.units@ == s2.units@,
        s1.waves@ == s2.waves@,
        s1.thread_local@ == s2.thread_local@,
{
    lemma_waves_agree(c, s1.waves@, s2.waves@, c.nodes.len() as int);
    assert(s1.waves@ =~= s2.waves@);
}

/// Builds game data from a builder: the primary world and the state of the
/// bridge are handed over.
pub trait DataInit<T>: Sized {
    fn build(self, world: &mut World, migration_state: &mut MigrationState) -> Result<
        T,
        BuildError,
    >;
}

/// Disposes game data with access to the world.
pub trait DataDispose {
    fn dispose(&mut self, world: &mut World);
}

/// The units that a graph holds, released when the graph is disposed:
/// the parallel units, then the thread-local ones.
pub open spec fn released(g: Option<CompiledGraph>) -> Seq<u64> {
    match g {
        Some(c) => node_ids(c@.nodes) + c@.thread_local,
        None => Seq::empty(),
    }
}

/// What one tick runs: the primary graph, then the secondary one.
pub struct Tick {
    pub primary: Schedule,
    pub secondary: Schedule,
}

/// The compiled graphs of a build; `None` once disposed.
pub struct GameData {
    pub dispatcher: Option<CompiledGraph>,
    pub migration_dispatcher: Option<CompiledGraph>,
    /// The listener bound on the secondary world's entity channel, which
    /// buffers up to `ENTITY_EVENT_CAPACITY` events for the entity pairs.
    pub migration_sync_entities: EntityEvents,
}

impl GameData {
    /// Every graph held has only backward edges.
    pub open spec fn wf(&self) -> bool {
        &&& (self.dispatcher matches Some(d) ==> edges_backward(d@))
        &&& (self.migration_dispatcher matches Some(d) ==> edges_backward(d@))
    }

    pub fn new(
        dispatcher: CompiledGraph,
        migration_dispatcher: CompiledGraph,
        migration_sync_entities: EntityEvents,
    ) -> (r: GameData)
        requires
            edges_backward(dispatcher@),
            edges_backward(migration_dispatcher@),
        ensures
            r.wf(),
            r.dispatcher == Some(dispatcher),
            r.migration_dispatcher == Some(migration_dispatcher),
            r.migration_sync_entities == migration_sync_entities,
    {
        GameData {
            dispatcher: Some(dispatcher),
            migration_dispatcher: Some(migration_dispatcher),
            migration_sync_entities,
        }
    }

    /// The schedules of one tick, or `PostDisposeUse` once disposed.
    pub fn update(&self) -> (r: Result<Tick, BuildError>)
        requires
            self.wf(),
        ensures
            match self.dispatcher {
                None => r matches Err(e) && e@ == Failure::PostDisposeUse,
                Some(d) => r matches Ok(t) && schedule_of(d@, t.primary) && match self.migration_dispatcher {
                    Some(m) => schedule_of(m@, t.secondary),
                    None => t.secondary.units@.len() == 0 && t.secondary.thread_local@.len() == 0,
                },
            },
    {
        match &self.dispatcher {
            None => Err(BuildError::PostDisposeUse),
            Some(d) => {
                let primary = schedule(d);
                let secondary = match &self.migration_dispatcher {
                    Some(m) => schedule(m),
                    None => Schedule {
                        units: Vec::new(),
                        waves: Vec::new(),
                        thread_local: Vec::new(),
                    },
                };
                Ok(Tick { primary, secondary })
            },
        }
    }

    /// Drops the graphs and returns the units whose resources are released,
    /// each once; a second call releases nothing.
    pub fn dispose(&mut self) -> (r: Vec<u64>)
        ensures
            r@ == released(old(self).dispatcher) + released(old(self).migration_dispatcher),
            final(self).dispatcher is None,
            final(self).migration_dispatcher is None,
            final(self).wf(),
    {
        let mut r: Vec<u64> = Vec::new();
        let d = self.dispatcher.take();
        let m = self.migration_dispatcher.take();
        append_released(&mut r, d);
        append_released(&mut r, m);
        r
    }
}

fn append_released(out: &mut Vec<u64>, g: Option<CompiledGraph>)
    ensures
        final(out)@ == old(out)@ + released(g),
{
    match g {
        None => {
            assert(old(out)@ + released(g) =~= old(out)@);
        },
        Some(c) => {
            let ghost start = out@;
            let ghost cv = c@;
            let mut i: usize = 0;
            while i < c.nodes.len()
                invariant
                    cv == c@,
                    i <= c.nodes.len(),
                    out@ == start + node_ids(cv.nodes).subrange(0, i as int),
                decreases c.nodes.len() - i,
            {
                out.push(c.nodes[i].id);
                i = i + 1;
                assert(out@ =~= start + node_ids(cv.nodes).subrange(0, i as int));
            }
            assert(node_ids(cv.nodes).subrange(0, i as int) =~= node_ids(cv.nodes));
            let mut k: usize = 0;
            while k < c.thread_local.len()
                invariant
                    cv == c@,
                    k <= c.thread_local.len(),
                    out@ == start + node_ids(cv.nodes) + cv.thread_local.subrange(0, k as int),
                decreases c.thread_local.len() - k,
            {
                out.push(c.thread_local[k]);
                k = k + 1;
                assert(out@ =~= start + node_ids(cv.nodes) + cv.thread_local.subrange(0, k as int));
            }
            assert(out@ =~= start + released(Some(c)));
        },
    }
}

impl DataDispose for () {
    fn dispose(&mut self, world: &mut World) {
    }
}

impl DataDispose for GameData {
    fn dispose(&mut self, world: &mut World) {
        GameData::dispose(self);
    }
}

pub open spec fn strs(v: Seq<&str>) -> Seq<Seq<char>> {
    v.map_values(|s: &str| s@)
}

fn to_strings(v: &[&str]) -> (r: Vec<String>)
    ensures
        texts(r@) == strs(v@),
{
    let mut r: Vec<String> = Vec::new();
    let mut i: usize = 0;
    while i < v.len()
        invariant
            i <= v@.len(),
            texts(r@) == strs(v@).subrange(0, i as int),
        decreases v.len() - i,
    {
        let s: &str = v[i];
        let o = s.to_owned();
        assert(o@ == strs(v@)[i as int]);
        let ghost r0 = r@;
        r.push(o);
        assert(texts(r@) =~= texts(r0).push(o@));
        assert(strs(v@).subrange(0, i + 1) =~= strs(v@).subrange(0, i as int).push(
            strs(v@)[i as int],
        ));
        i = i + 1;
    }
    assert(strs(v@).subrange(0, i as int) =~= strs(v@));
    r
}

/// Collects the operations of the primary graph, and the syncers and
/// operations of the bridge, until `build` compiles them.
pub struct GameDataBuilder {
    pub dispatcher_operations: Vec<Operation>,
    pub migration_operations: Vec<Operation>,
    pub migration_bundle_operations: Vec<Operation>,
    pub migration_bundle_syncers: Vec<Syncer>,
    pub migration_syncers: Vec<Syncer>,
}

/// Only the primary log changed, by one operation at its end.
pub open spec fn logged(old_b: GameDataBuilder, new_b: GameDataBuilder, op: OperationView) -> bool {
    &&& operation_views(new_b.dispatcher_operations@) == operation_views(
        old_b.dispatcher_operations@,
    ).push(op)
    &&& new_b.migration_operations == old_b.migration_operations
    &&& new_b.migration_bundle_operations == old_b.migration_bundle_operations
    &&& new_b.migration_bundle_syncers == old_b.migration_bundle_syncers
    &&& new_b.migration_syncers == old_b.migration_syncers
}

/// Only the secondary log changed, by one operation at its end.
pub open spec fn migration_logged(
    old_b: GameDataBuilder,
    new_b: GameDataBuilder,
    op: OperationView,
) -> bool {
    &&& new_b.dispatcher_operations == old_b.dispatcher_operations
    &&& operation_views(new_b.migration_operations@) == operation_views(
        old_b.migration_operations@,
    ).push(op)
    &&& new_b.migration_bundle_operations == old_b.migration_bundle_operations
    &&& new_b.migration_bundle_syncers == old_b.migration_bundle_syncers
    &&& new_b.migration_syncers == old_b.migration_syncers
}

/// Only the list of syncers changed, by one syncer at its end.
pub open spec fn syncer_added(old_b: GameDataBuilder, new_b: GameDataBuilder, s: Syncer) -> bool {
    &&& new_b.dispatcher_operations == old_b.dispatcher_operations
    &&& new_b.migration_operations == old_b.migration_operations
    &&& new_b.migration_bundle_operations == old_b.migration_bundle_operations
    &&& new_b.migration_bundle_syncers == old_b.migration_bundle_syncers
    &&& new_b.migration_syncers@ == old_b.migration_syncers@.push(s)
}

pub open spec fn system_step(id: u64, name: &str, dependencies: &[&str]) -> StepView {
    StepView::System { id, name: name@, dependencies: strs(dependencies@) }
}

/// What a build yields: the primary graph, the secondary graph, the primary
/// world after the syncers ran back, and the secondary world after they ran
/// forth. Steps in order: compile the primary log; run every syncer's setup
/// on the primary world; run every syncer towards the secondary world;
/// compile the secondary log; run every syncer back.
pub open spec fn build_outcome(
    primary_ops: Seq<OperationView>,
    secondary_ops: Seq<OperationView>,
    syncers: Seq<Syncer>,
    pairs: Seq<(u64, u64)>,
    world: WorldView,
    secondary: WorldView,
) -> Result<(CompiledView, CompiledView, WorldView, WorldView), Failure> {
    let prepared = setup_all(world, syncers);
    match compile_model(primary_ops) {
        Err(e) => Err(e),
        Ok(c1) => match sync_all(
            prepared,
            secondary,
            syncers,
            pairs,
            SyncDirection::PrimaryToSecondary,
        ) {
            Err(e) => Err(e),
            Ok(s1) => match compile_model(secondary_ops) {
                Err(e) => Err(e),
                Ok(c2) => match sync_all(
                    s1,
                    prepared,
                    syncers,
                    pairs,
                    SyncDirection::SecondaryToPrimary,
                ) {
                    Err(e) => Err(e),
                    Ok(w1) => Ok((c1, c2, w1, s1)),
                },
            },
        },
    }
}

impl GameDataBuilder {
    pub fn new() -> (r: GameDataBuilder)
        ensures
            r.dispatcher_operations@.len() == 0,
            r.migration_operations@.len() == 0,
            r.migration_bundle_operations@.len() == 0,
            r.migration_bundle_syncers@.len() == 0,
            r.migration_syncers@.len() == 0,
    {
        GameDataBuilder {
            dispatcher_operations: Vec::new(),
            migration_operations: Vec::new(),
            migration_bundle_operations: Vec::new(),
            migration_bundle_syncers: Vec::new(),
            migration_syncers: Vec::new(),
        }
    }

    /// Registers a resource syncer for the resource of kind `kind`.
    pub fn migration_resource_sync(self, kind: u64) -> (r: Self)
        ensures
            syncer_added(self, r, Syncer::Resource(kind)),
    {
        let mut b = self;
        b.migration_syncers.push(Syncer::Resource(kind));
        b
    }

    /// Registers a component syncer for the component of kind `kind`.
    pub fn migration_component_sync(self, kind: u64) -> (r: Self)
        ensures
            syncer_added(self, r, Syncer::Component(kind)),
    {
        let mut b = self;
        b.migration_syncers.push(Syncer::Component(kind));
        b
    }

    /// Registers a component syncer that merges by `rule`.
    pub fn migration_component_sync_with(self, kind: u64, rule: crate::bridge::MergeRule) -> (r: Self)
        ensures
            syncer_added(self, r, Syncer::ComponentWith(kind, rule)),
    {
        let mut b = self;
        b.migration_syncers.push(Syncer::ComponentWith(kind, rule));
        b
    }

    /// Registers a group of syncers and secondary operations; at build its
    /// syncers run before those registered one by one, and its operations
    /// follow those registered one by one.
    pub fn migration_sync_bundle(self, bundle: SyncBundle) -> (r: Self)
        ensures
            r.dispatcher_operations == self.dispatcher_operations,
            r.migration_operations == self.migration_operations,
            r.migration_bundle_operations@ == self.migration_bundle_operations@
                + bundle.operations@,
            r.migration_bundle_syncers@ == self.migration_bundle_syncers@ + bundle.syncers@,
            r.migration_syncers == self.migration_syncers,
    {
        let mut b = self;
        let mut bundle = bundle;
        b.migration_bundle_operations.append(&mut bundle.operations);
        b.migration_bundle_syncers.append(&mut bundle.syncers);
        b
    }

    /// Registers a thread-local unit of the secondary world.
    pub fn migration_with_thread_local(self, id: u64) -> (r: Self)
        ensures
            migration_logged(self, r, OperationView::AddStep(StepView::ThreadLocal { id })),
    {
        let mut b = self;
        proof {
            lemma_operation_views_push(b.migration_operations@, Operation::AddStep(Step::ThreadLocal { id }));
        }
        b.migration_operations.push(Operation::AddStep(Step::ThreadLocal { id }));
        b
    }

    /// Registers a parallel unit of the secondary world.
    pub fn migration_with_system(self, id: u64, name: &str, dependencies: &[&str]) -> (r: Self)
        ensures
            migration_logged(
                self,
                r,
                OperationView::AddStep(system_step(id, name, dependencies)),
            ),
    {
        let mut b = self;
        let step = Step::System {
            id,
            name: name.to_owned(),
            dependencies: to_strings(dependencies),
        };
        proof {
            lemma_operation_views_push(b.migration_operations@, Operation::AddStep(step));
        }
        b.migration_operations.push(Operation::AddStep(step));
        b
    }

    /// Registers a bundle of the secondary world.
    pub fn migration_with_bundle(self, bundle: Bundle) -> (r: Self)
        ensures
            migration_logged(self, r, Operation::AddBundle(bundle)@),
    {
        let mut b = self;
        let op = Operation::AddBundle(bundle);
        proof {
            lemma_operation_views_push(b.migration_operations@, op);
        }
        b.migration_operations.push(op);
        b
    }

    /// Inserts a barrier: every unit registered before it completes before
    /// any unit registered after it starts. It does nothing when no unit was
    /// registered since the last barrier; thread-local units are not
    /// affected.
    pub fn with_barrier(self) -> (r: Self)
        ensures
            logged(self, r, OperationView::AddStep(StepView::Barrier)),
    {
        let mut b = self;
        proof {
            lemma_operation_views_push(b.dispatcher_operations@, Operation::AddStep(Step::Barrier));
        }
        b.dispatcher_operations.push(Operation::AddStep(Step::Barrier));
        b
    }

    /// Registers a parallel unit under `name` (empty: not referable), to run
    /// after the units named in `dependencies`.
    pub fn with(self, id: u64, name: &str, dependencies: &[&str]) -> (r: Self)
        ensures
            logged(self, r, OperationView::AddStep(system_step(id, name, dependencies))),
    {
        let mut b = self;
        let step = Step::System {
            id,
            name: name.to_owned(),
            dependencies: to_strings(dependencies),
        };
        proof {
            lemma_operation_views_push(b.dispatcher_operations@, Operation::AddStep(step));
        }
        b.dispatcher_operations.push(Operation::AddStep(step));
        b
    }

    /// Registers a parallel unit whose logic is made when the graph is
    /// built; ordered exactly as `with`.
    pub fn with_system_desc(self, id: u64, name: &str, dependencies: &[&str]) -> (r: Self)
        ensures
            logged(self, r, OperationView::AddStep(system_step(id, name, dependencies))),
    {
        self.with(id, name, dependencies)
    }

    /// Registers a unit that runs on the calling thread after every parallel
    /// unit.
    pub fn with_thread_local(self, id: u64) -> (r: Self)
        ensures
            logged(self, r, OperationView::AddStep(StepView::ThreadLocal { id })),
    {
        let mut b = self;
        proof {
            lemma_operation_views_push(b.dispatcher_operations@, Operation::AddStep(Step::ThreadLocal { id }));
        }
        b.dispatcher_operations.push(Operation::AddStep(Step::ThreadLocal { id }));
        b
    }

    /// Registers a thread-local unit whose logic is made when the graph is
    /// built; ordered exactly as `with_thread_local`.
    pub fn with_thread_local_desc(self, id: u64) -> (r: Self)
        ensures
            logged(self, r, OperationView::AddStep(StepView::ThreadLocal { id })),
    {
        self.with_thread_local(id)
    }

    /// Registers a bundle; a failure of its expansion surfaces at build.
    pub fn with_bundle(self, bundle: Bundle) -> (r: Result<Self, BuildError>)
        ensures
            r matches Ok(b) && logged(self, b, Operation::AddBundle(bundle)@),
    {
        let mut b = self;
        let op = Operation::AddBundle(bundle);
        proof {
            lemma_operation_views_push(b.dispatcher_operations@, op);
        }
        b.dispatcher_operations.push(op);
        Ok(b)
    }
}

impl Default for GameDataBuilder {
    fn default() -> (r: GameDataBuilder)
        ensures
            r.dispatcher_operations@.len() == 0,
            r.migration_operations@.len() == 0,
            r.migration_bundle_operations@.len() == 0,
            r.migration_bundle_syncers@.len() == 0,
            r.migration_syncers@.len() == 0,
    {
        GameDataBuilder::new()
    }
}

/// `g` holds a graph whose view is `c`.
pub open spec fn holds_graph(g: Option<CompiledGraph>, c: CompiledView) -> bool {
    g matches Some(d) && d@ == c
}

impl GameDataBuilder {
    /// Compiles the primary log; hands the bundles' syncers and the syncers
    /// registered one by one to the bridge; runs every syncer's setup on the
    /// primary world, then every syncer towards the secondary world;
    /// compiles the secondary log; runs every syncer back; and binds the
    /// entity listener, empty. The first failure aborts the build, and a
    /// failed build leaves the world and the bridge as they were.
    pub fn build(self, world: &mut World, migration_state: &mut MigrationState) -> (r: Result<
        GameData,
        BuildError,
    >)
        ensures
            match build_outcome(
                operation_views(self.dispatcher_operations@),
                operation_views(self.migration_operations@ + self.migration_bundle_operations@),
                old(migration_state).syncers@ + self.migration_bundle_syncers@
                    + self.migration_syncers@,
                old(migration_state).entities.pairs@,
                old(world)@,
                old(migration_state).world@,
            ) {
                Ok((c1, c2, w1, s1)) => {
                    &&& r matches Ok(g)
                    &&& g.wf()
                    &&& holds_graph(g.dispatcher, c1)
                    &&& holds_graph(g.migration_dispatcher, c2)
                    &&& g.migration_sync_entities.events@.len() == 0
                    &&& final(world)@ == w1
                    &&& final(migration_state).world@ == s1
                    &&& final(migration_state).syncers@ == old(migration_state).syncers@
                        + self.migration_bundle_syncers@ + self.migration_syncers@
                    &&& final(migration_state).entities == old(migration_state).entities
                },
                Err(e) => {
                    &&& r matches Err(x) && x@ == e
                    &&& final(world)@ == old(world)@
                    &&& final(migration_state).world@ == old(migration_state).world@
                    &&& final(migration_state).syncers@ == old(migration_state).syncers@
                    &&& final(migration_state).entities == old(migration_state).entities
                },
            },
            r is Ok ==> final(world)@.resources == old(world)@.resources,
    {
        let ghost primary_ops = operation_views(self.dispatcher_operations@);
        let ghost secondary_ops = operation_views(
            self.migration_operations@ + self.migration_bundle_operations@,
        );
        let primary = match compile(self.dispatcher_operations) {
            Ok(c) => c,
            Err(e) => {
                return Err(e);
            },
        };
        proof {
            compiled_edges_respect_dependencies(primary_ops);
        }
        let mut all: Vec<Syncer> = Vec::new();
        let mut i: usize = 0;
        while i < migration_state.syncers.len()
            invariant
                i <= migration_state.syncers@.len(),
                all@ == migration_state.syncers@.subrange(0, i as int),
            decreases migration_state.syncers.len() - i,
        {
            all.push(migration_state.syncers[i]);
            i = i + 1;
            assert(all@ =~= migration_state.syncers@.subrange(0, i as int));
        }
        assert(all@ =~= migration_state.syncers@);
        let mut bundle_syncers = self.migration_bundle_syncers;
        let mut syncers = self.migration_syncers;
        all.append(&mut bundle_syncers);
        all.append(&mut syncers);
        let ghost prepared = setup_all(world@, all@);
        proof {
            lemma_setup_keeps_resources(world@, all@);
            lemma_sync_fails_iff_missing(
                prepared,
                migration_state.world@,
                all@,
                migration_state.entities.pairs@,
                SyncDirection::PrimaryToSecondary,
            );
        }
        match first_missing_resource(world, &all) {
            Some(k) => {
                return Err(BuildError::SyncerSyncFailed(k));
            },
            None => {},
        }
        let mut ops = self.migration_operations;
        let mut bundle_ops = self.migration_bundle_operations;
        ops.append(&mut bundle_ops);
        let secondary = match compile(ops) {
            Ok(c) => c,
            Err(e) => {
                return Err(e);
            },
        };
        proof {
            compiled_edges_respect_dependencies(secondary_ops);
        }
        setup_syncers(world, &all);
        match sync_syncers(
            &*world,
            &mut migration_state.world,
            &all,
            &migration_state.entities.pairs,
            SyncDirection::PrimaryToSecondary,
        ) {
            Ok(()) => {},
            Err(e) => {
                return Err(e);
            },
        }
        proof {
            lemma_sync_copies_resources(
                prepared,
                old(migration_state).world@,
                all@,
                migration_state.entities.pairs@,
                SyncDirection::PrimaryToSecondary,
            );
            lemma_none_missing(migration_state.world@.resources, all@);
            lemma_sync_fails_iff_missing(
                migration_state.world@,
                prepared,
                all@,
                migration_state.entities.pairs@,
                SyncDirection::SecondaryToPrimary,
            );
            resource_round_trip(
                prepared,
                old(migration_state).world@,
                all@,
                migration_state.entities.pairs@,
            );
        }
        match sync_syncers(
            &migration_state.world,
            world,
            &all,
            &migration_state.entities.pairs,
            SyncDirection::SecondaryToPrimary,
        ) {
            Ok(()) => {},
            Err(e) => {
                return Err(e);
            },
        }
        migration_state.syncers = all;
        Ok(GameData::new(primary, secondary, EntityEvents::new()))
    }
}

impl DataInit<GameData> for GameDataBuilder {
    fn build(self, world: &mut World, migration_state: &mut MigrationState) -> Result<
        GameData,
        BuildError,
    > {
        GameDataBuilder::build(self, world, migration_state)
    }
}

impl DataInit<()> for () {
    fn build(self, world: &mut World, migration_state: &mut MigrationState) -> Result<
        (),
        BuildError,
    > {
        Ok(())
    }
}

} // verus!
