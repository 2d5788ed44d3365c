use vstd::prelude::*;

use crate::text::same_text;

verus! {

/// A single construction step of the log: a parallel unit with its name and
/// the names it must run after, a unit confined to the calling thread, or a
/// barrier. `id` is the caller's handle for the unit's logic.
pub enum Step {
    System { id: u64, name: String, dependencies: Vec<String> },
    ThreadLocal { id: u64 },
    Barrier,
}

pub enum StepView {
    System { id: u64, name: Seq<char>, dependencies: Seq<Seq<char>> },
    ThreadLocal { id: u64 },
    Barrier,
}

pub open spec fn texts(v: Seq<String>) -> Seq<Seq<char>> {
    v.map_values(|s: String| s@)
}

impl View for Step {
    type V = StepView;

    open spec fn view(&self) -> StepView {
        match self {
            Step::System { id, name, dependencies } => StepView::System {
                id: *id,
                name: name@,
                dependencies: texts(dependencies@),
            },
            Step::ThreadLocal { id } => StepView::ThreadLocal { id: *id },
            Step::Barrier => StepView::Barrier,
        }
    }
}

/// A group of steps registered at once. Its expansion either yields its
/// steps or fails with a message, which aborts the whole build.
pub struct Bundle {
    pub steps: Vec<Step>,
    pub failure: Option<String>,
}

pub open spec fn step_views(v: Seq<Step>) -> Seq<StepView> {
    v.map_values(|s: Step| s@)
}

/// An entry of the deferred operation log.
pub enum Operation {
    AddStep(Step),
    AddBundle(Bundle),
}

pub enum OperationView {
    AddStep(StepView),
    AddBundle { steps: Seq<StepView>, failure: Option<Seq<char>> },
}

impl View for Operation {
    type V = OperationView;

    open spec fn view(&self) -> OperationView {
        match self {
            Operation::AddStep(s) => OperationView::AddStep(s@),
            Operation::AddBundle(b) => OperationView::AddBundle {
                steps: step_views(b.steps@),
                failure: match b.failure {
                    Some(m) => Some(m@),
                    None => None,
                },
            },
        }
    }
}

pub open spec fn operation_views(v: Seq<Operation>) -> Seq<OperationView> {
    v.map_values(|o: Operation| o@)
}

/// Why a build was refused. A syncer's setup only registers the component
/// storage it watches, which cannot fail, so no variant stands for a failed
/// setup.
#[derive(Debug)]
pub enum BuildError {
    DuplicateName(String),
    UnknownDependency(String),
    BundleExpansionFailed(String),
    SyncerSyncFailed(u64),
    PostDisposeUse,
}

pub enum Failure {
    DuplicateName(Seq<char>),
    UnknownDependency(Seq<char>),
    BundleExpansionFailed(Seq<char>),
    SyncerSyncFailed(u64),
    PostDisposeUse,
}

impl View for BuildError {
    type V = Failure;

    open spec fn view(&self) -> Failure {
        match self {
            BuildError::DuplicateName(s) => Failure::DuplicateName(s@),
            BuildError::UnknownDependency(s) => Failure::UnknownDependency(s@),
            BuildError::BundleExpansionFailed(s) => Failure::BundleExpansionFailed(s@),
            BuildError::SyncerSyncFailed(k) => Failure::SyncerSyncFailed(*k),
            BuildError::PostDisposeUse => Failure::PostDisposeUse,
        }
    }
}

/// A node of the compiled graph: a parallel unit, the names it declared, and
/// the indices of the earlier nodes that must complete before it starts.
pub struct Node {
    pub id: u64,
    pub name: String,
    pub dependencies: Vec<String>,
    pub after: Vec<usize>,
}

pub struct NodeView {
    pub id: u64,
    pub name: Seq<char>,
    pub dependencies: Seq<Seq<char>>,
    pub after: Seq<int>,
}

impl View for Node {
    type V = NodeView;

    open spec fn view(&self) -> NodeView {
        NodeView {
            id: self.id,
            name: self.name@,
            dependencies: texts(self.dependencies@),
            after: self.after@.map_values(|x: usize| x as int),
        }
    }
}

pub open spec fn node_views(v: Seq<Node>) -> Seq<NodeView> {
    v.map_values(|n: Node| n@)
}

/// The state of a compilation in progress: the nodes so far, the thread-local
/// units in order, and the index range of the previous and the current
/// barrier generation (`prev_start..gen_start` and `gen_start..`).
pub struct GraphView {
    pub nodes: Seq<NodeView>,
    pub locals: Seq<u64>,
    pub prev_start: int,
    pub gen_start: int,
}

pub open spec fn empty_graph() -> GraphView {
    GraphView { nodes: seq![], locals: seq![], prev_start: 0, gen_start: 0 }
}

/// Node `i` carries the non-empty name `name`.
pub open spec fn named(nodes: Seq<NodeView>, name: Seq<char>, i: int) -> bool {
    0 <= i < nodes.len() && name.len() > 0 && nodes[i].name == name
}

pub open spec fn declared(nodes: Seq<NodeView>, name: Seq<char>) -> bool {
    exists|i: int| named(nodes, name, i)
}

pub open spec fn position(nodes: Seq<NodeView>, name: Seq<char>) -> int {
    choose|i: int| named(nodes, name, i)
}

pub open spec fn all_declared(nodes: Seq<NodeView>, deps: Seq<Seq<char>>) -> bool {
    forall|k: int| 0 <= k < deps.len() ==> declared(nodes, #[trigger] deps[k])
}

/// The index of the first dependency that names no node.
pub open spec fn first_unknown(nodes: Seq<NodeView>, deps: Seq<Seq<char>>) -> int {
    choose|k: int|
        0 <= k < deps.len() && !declared(nodes, deps[k]) && forall|m: int|
            0 <= m < k ==> declared(nodes, #[trigger] deps[m])
}

pub open spec fn barrier_edges(g: GraphView) -> Seq<int> {
    Seq::new((g.gen_start - g.prev_start) as nat, |i: int| g.prev_start + i)
}

pub open spec fn resolved(nodes: Seq<NodeView>, deps: Seq<Seq<char>>) -> Seq<int> {
    deps.map_values(|d: Seq<char>| position(nodes, d))
}

/// What one step does to a compilation: unknown dependencies are reported
/// first, then a repeated name; a barrier opens a new generation only when
/// the current one holds a node.
pub open spec fn apply_step(g: GraphView, s: StepView) -> Result<GraphView, Failure> {
    match s {
        StepView::System { id, name, dependencies } => {
            if !all_declared(g.nodes, dependencies) {
                Err(
                    Failure::UnknownDependency(
                        dependencies[first_unknown(g.nodes, dependencies)],
                    ),
                )
            } else if declared(g.nodes, name) {
                Err(Failure::DuplicateName(name))
            } else {
                Ok(
                    GraphView {
                        nodes: g.nodes.push(
                            NodeView {
                                id,
                                name,
                                dependencies,
                                after: resolved(g.nodes, dependencies) + barrier_edges(g),
                            },
                        ),
                        ..g
                    },
                )
            }
        },
        StepView::ThreadLocal { id } => Ok(GraphView { locals: g.locals.push(id), ..g }),
        StepView::Barrier => {
            if g.gen_start < g.nodes.len() {
                Ok(GraphView { prev_start: g.gen_start, gen_start: g.nodes.len() as int, ..g })
            } else {
                Ok(g)
            }
        },
    }
}

/// Steps applied in order; the first failure ends the run.
pub open spec fn run(g: GraphView, steps: Seq<StepView>) -> Result<GraphView, Failure>
    decreases steps.len(),
{
    if steps.len() == 0 {
        Ok(g)
    } else {
        match run(g, steps.drop_last()) {
            Ok(h) => apply_step(h, steps.last()),
            Err(e) => Err(e),
        }
    }
}

pub open spec fn apply_operation(g: GraphView, op: OperationView) -> Result<GraphView, Failure> {
    match op {
        OperationView::AddStep(s) => apply_step(g, s),
        OperationView::AddBundle { steps, failure } => match failure {
            Some(m) => Err(Failure::BundleExpansionFailed(m)),
            None => run(g, steps),
        },
    }
}

/// The operation log replayed in order.
pub open spec fn replay(g: GraphView, ops: Seq<OperationView>) -> Result<GraphView, Failure>
    decreases ops.len(),
{
    if ops.len() == 0 {
        Ok(g)
    } else {
        match replay(g, ops.drop_last()) {
            Ok(h) => apply_operation(h, ops.last()),
            Err(e) => Err(e),
        }
    }
}

/// The `t`-th declared dependency of node `i` is the node its `t`-th edge
/// points to.
pub open spec fn edge_named(nodes: Seq<NodeView>, i: int, t: int) -> bool {
    t < nodes[i].after.len() && named(nodes, nodes[i].dependencies[t], nodes[i].after[t])
}

pub open spec fn edges_named(nodes: Seq<NodeView>) -> bool {
    forall|i: int, t: int|
        0 <= i < nodes.len() && 0 <= t < nodes[i].dependencies.len() ==> #[trigger] edge_named(
            nodes,
            i,
            t,
        )
}

/// Names are unique, every edge points to an earlier node, and the two
/// generations are ranges of the nodes.
pub open spec fn graph_wf(g: GraphView) -> bool {
    &&& 0 <= g.prev_start <= g.gen_start <= g.nodes.len()
    &&& (forall|i: int, j: int|
        0 <= i < g.nodes.len() && 0 <= j < g.nodes.len() && i != j && #[trigger] g.nodes[i].name.len()
            > 0 ==> g.nodes[i].name != #[trigger] g.nodes[j].name)
    &&& (forall|i: int, t: int|
        0 <= i < g.nodes.len() && 0 <= t < g.nodes[i].after.len() ==> 0 <= #[trigger] g.nodes[i].after[t]
            < i)
    &&& edges_named(g.nodes)
}

pub proof fn lemma_apply_step_wf(g: GraphView, s: StepView)
    requires
        graph_wf(g),
    ensures
        apply_step(g, s) matches Ok(h) ==> graph_wf(h) && h.nodes.len() >= g.nodes.len()
            && h.nodes.subrange(0, g.nodes.len() as int) == g.nodes,
{
    if let Ok(h) = apply_step(g, s) {
        assert(h.nodes.subrange(0, g.nodes.len() as int) =~= g.nodes);
        if let StepView::System { id, name, dependencies } = s {
            let n = g.nodes.len() as int;
            assert(h.nodes.len() == n + 1);
            assert forall|i: int, j: int|
                0 <= i < h.nodes.len() && 0 <= j < h.nodes.len() && i != j
                    && #[trigger] h.nodes[i].name.len() > 0 implies h.nodes[i].name
                != #[trigger] h.nodes[j].name by {
                if i == n && j < n {
                    if name == g.nodes[j].name {
                        assert(named(g.nodes, name, j));
                    }
                } else if j == n && i < n {
                    if name == g.nodes[i].name {
                        assert(named(g.nodes, name, i));
                    }
                } else if i < n && j < n {
                    assert(h.nodes[i] == g.nodes[i]);
                    assert(h.nodes[j] == g.nodes[j]);
                }
            }
            assert forall|i: int, t: int|
                0 <= i < h.nodes.len() && 0 <= t < h.nodes[i].after.len() implies 0 <= #[trigger] h.nodes[i].after[t]
                < i by {
                if i == n {
                    let r = resolved(g.nodes, dependencies);
                    if t < r.len() {
                        assert(declared(g.nodes, dependencies[t]));
                        let p = position(g.nodes, dependencies[t]);
                        assert(named(g.nodes, dependencies[t], p));
                    }
                }
            }
            assert forall|i: int, t: int|
                0 <= i < h.nodes.len() && 0 <= t < h.nodes[i].dependencies.len() implies #[trigger] edge_named(
                h.nodes,
                i,
                t,
            ) by {
                if i == n {
                    assert(declared(g.nodes, dependencies[t]));
                    let p = position(g.nodes, dependencies[t]);
                    assert(named(g.nodes, dependencies[t], p));
                } else {
                    let p = g.nodes[i].after[t];
                    assert(edge_named(g.nodes, i, t));
                    assert(h.nodes[p] == g.nodes[p]);
                }
            }
        }
    }
}

pub proof fn lemma_run_wf(g: GraphView, steps: Seq<StepView>)
    requires
        graph_wf(g),
    ensures
        run(g, steps) matches Ok(h) ==> graph_wf(h),
    decreases steps.len(),
{
    if steps.len() > 0 {
        lemma_run_wf(g, steps.drop_last());
        if let Ok(h) = run(g, steps.drop_last()) {
            lemma_apply_step_wf(h, steps.last());
        }
    }
}

pub proof fn lemma_replay_wf(g: GraphView, ops: Seq<OperationView>)
    requires
        graph_wf(g),
    ensures
        replay(g, ops) matches Ok(h) ==> graph_wf(h),
    decreases ops.len(),
{
    if ops.len() > 0 {
        lemma_replay_wf(g, ops.drop_last());
        if let Ok(h) = replay(g, ops.drop_last()) {
            if let OperationView::AddStep(s) = ops.last() {
                lemma_apply_step_wf(h, s);
            } else if let OperationView::AddBundle { steps, failure } = ops.last() {
                lemma_run_wf(h, steps);
            }
        }
    }
}

/// The compiled form: the parallel graph and the thread-local units in the
/// order they were registered.
pub struct CompiledGraph {
    pub nodes: Vec<Node>,
    pub thread_local: Vec<u64>,
}

pub struct CompiledView {
    pub nodes: Seq<NodeView>,
    pub thread_local: Seq<u64>,
}

impl View for CompiledGraph {
    type V = CompiledView;

    open spec fn view(&self) -> CompiledView {
        CompiledView { nodes: node_views(self.nodes@), thread_local: self.thread_local@ }
    }
}

/// What compiling an operation log yields.
pub open spec fn compile_model(ops: Seq<OperationView>) -> Result<CompiledView, Failure> {
    match replay(empty_graph(), ops) {
        Ok(g) => Ok(CompiledView { nodes: g.nodes, thread_local: g.locals }),
        Err(e) => Err(e),
    }
}

/// A compilation in progress.
pub struct Compiler {
    pub nodes: Vec<Node>,
    pub locals: Vec<u64>,
    pub prev_start: usize,
    pub gen_start: usize,
}

impl View for Compiler {
    type V = GraphView;

    open spec fn view(&self) -> GraphView {
        GraphView {
            nodes: node_views(self.nodes@),
            locals: self.locals@,
            prev_start: self.prev_start as int,
            gen_start: self.gen_start as int,
        }
    }
}

/// Finds the node that carries the non-empty name `name`.
fn find(nodes: &Vec<Node>, name: &String) -> (r: Option<usize>)
    ensures
        r is None <==> !declared(node_views(nodes@), name@),
        r matches Some(i) ==> named(node_views(nodes@), name@, i as int),
{
    let ghost views = node_views(nodes@);
    if name.as_str().unicode_len() == 0 {
        return None;
    }
    let mut i: usize = 0;
    while i < nodes.len()
        invariant
            views == node_views(nodes@),
            name@.len() > 0,
            i <= nodes.len(),
            forall|k: int| 0 <= k < i ==> !named(views, name@, k),
        decreases nodes.len() - i,
    {
        if same_text(nodes[i].name.as_str(), name.as_str()) {
            assert(named(views, name@, i as int));
            return Some(i);
        }
        i = i + 1;
    }
    None
}

impl Compiler {
    pub fn new() -> (r: Compiler)
        ensures
            r@ == empty_graph(),
    {
        let r = Compiler { nodes: Vec::new(), locals: Vec::new(), prev_start: 0, gen_start: 0 };
        assert(r@.nodes =~= seq![]);
        r
    }

    /// Applies one step, or reports why it is refused.
    pub fn push_step(&mut self, step: Step) -> (r: Result<(), BuildError>)
        requires
            graph_wf(old(self)@),
        ensures
            match apply_step(old(self)@, step@) {
                Ok(h) => r is Ok && final(self)@ == h,
                Err(e) => r matches Err(x) && x@ == e,
            },
    {
        let ghost g = self@;
        let ghost sv = step@;
        match step {
            Step::System { id, name, dependencies } => {
                let ghost deps = texts(dependencies@);
                let mut after: Vec<usize> = Vec::new();
                let mut j: usize = 0;
                while j < dependencies.len()
                    invariant
                        g == self@,
                        graph_wf(g),
                        deps == texts(dependencies@),
                        sv == (StepView::System { id, name: name@, dependencies: deps }),
                        sv == step@,
                        g == old(self)@,
                        j <= dependencies.len(),
                        forall|k: int| 0 <= k < j ==> declared(g.nodes, #[trigger] deps[k]),
                        after@.map_values(|x: usize| x as int) =~= resolved(g.nodes, deps).subrange(0, j as int),
                    decreases dependencies.len() - j,
                {
                    match find(&self.nodes, &dependencies[j]) {
                        Some(p) => {
                            let ghost q = position(g.nodes, deps[j as int]);
                            proof {
                                assert(named(g.nodes, deps[j as int], q));
                                assert(named(g.nodes, g.nodes[q].name, p as int));
                                assert(named(g.nodes, g.nodes[p as int].name, q));
                            }
                            let ghost a0 = after@;
                            after.push(p);
                            assert(after@.map_values(|x: usize| x as int) =~= a0.map_values(
                                |x: usize| x as int,
                            ).push(p as int));
                            assert(resolved(g.nodes, deps).subrange(0, j + 1) =~= resolved(
                                g.nodes,
                                deps,
                            ).subrange(0, j as int).push(q));
                        },
                        None => {
                            proof {
                                let k = j as int;
                                assert(deps[k] == dependencies@[k]@);
                                assert(!all_declared(g.nodes, deps));
                                assert(0 <= k < deps.len() && !declared(g.nodes, deps[k])
                                    && forall|m: int|
                                    0 <= m < k ==> declared(g.nodes, #[trigger] deps[m]));
                                let c = first_unknown(g.nodes, deps);
                                if c < k {
                                    assert(declared(g.nodes, deps[c]));
                                } else if c > k {
                                    assert(declared(g.nodes, deps[k]));
                                }
                                assert(c == k);
                            }
                            let e = BuildError::UnknownDependency(dependencies[j].clone());
                            assert(apply_step(g, sv) == Err::<GraphView, Failure>(e@));
                            return Err(e);
                        },
                    }
                    j = j + 1;
                }
                assert(all_declared(g.nodes, deps));
                if find(&self.nodes, &name).is_some() {
                    return Err(BuildError::DuplicateName(name));
                }
                let mut b: usize = self.prev_start;
                while b < self.gen_start
                    invariant
                        g == self@,
                        graph_wf(g),
                        self.prev_start <= b <= self.gen_start,
                        sv == (StepView::System { id, name: name@, dependencies: deps }),
                        sv == step@,
                        g == old(self)@,
                        all_declared(g.nodes, deps),
                        !declared(g.nodes, name@),
                        after@.map_values(|x: usize| x as int) =~= resolved(g.nodes, deps) + barrier_edges(g).subrange(
                            0,
                            b - self.prev_start,
                        ),
                    decreases self.gen_start - b,
                {
                    let ghost a0 = after@;
                    after.push(b);
                    assert(after@.map_values(|x: usize| x as int) =~= a0.map_values(
                        |x: usize| x as int,
                    ).push(b as int));
                    b = b + 1;
                }
                assert(after@.map_values(|x: usize| x as int) =~= resolved(g.nodes, deps) + barrier_edges(g));
                self.nodes.push(Node { id, name, dependencies, after });
                assert(self@.nodes =~= g.nodes.push(
                    NodeView {
                        id,
                        name: name@,
                        dependencies: deps,
                        after: after@.map_values(|x: usize| x as int),
                    },
                ));
                Ok(())
            },
            Step::ThreadLocal { id } => {
                self.locals.push(id);
                Ok(())
            },
            Step::Barrier => {
                if self.gen_start < self.nodes.len() {
                    self.prev_start = self.gen_start;
                    self.gen_start = self.nodes.len();
                }
                Ok(())
            },
        }
    }

    /// Applies the steps of a bundle in order.
    pub fn push_steps(&mut self, steps: Vec<Step>) -> (r: Result<(), BuildError>)
        requires
            graph_wf(old(self)@),
        ensures
            match run(old(self)@, step_views(steps@)) {
                Ok(h) => r is Ok && final(self)@ == h,
                Err(e) => r matches Err(x) && x@ == e,
            },
    {
        let ghost g = self@;
        let ghost all = step_views(steps@);
        let mut rest = steps;
        let ghost mut i: int = 0;
        while rest.len() > 0
            invariant
                graph_wf(self@),
                g == old(self)@,
                all == step_views(steps@),
                0 <= i,
                i + rest.len() == all.len(),
                step_views(rest@) =~= all.subrange(i, all.len() as int),
                run(g, all.subrange(0, i)) == Ok::<GraphView, Failure>(self@),
            decreases rest.len(),
        {
            let ghost old_rest = rest@;
            proof {
                lemma_step_views_tail(old_rest);
            }
            let step = rest.remove(0);
            let ghost before = self@;
            assert(step@ == all[i]);
            assert(step_views(rest@) =~= all.subrange(i + 1, all.len() as int));
            assert(all.subrange(0, i + 1).last() == all[i]);
            let r = self.push_step(step);
            proof {
                assert(all.subrange(0, i + 1).drop_last() =~= all.subrange(0, i));
                lemma_apply_step_wf(before, all[i]);
            }
            if r.is_err() {
                proof {
                    lemma_run_error_persists(g, all.subrange(0, i + 1), all);
                }
                return r;
            }
            proof {
                i = i + 1;
            }
        }
        assert(all.subrange(0, i) =~= all);
        Ok(())
    }
}

pub proof fn lemma_operation_views_push(s: Seq<Operation>, o: Operation)
    ensures
        operation_views(s.push(o)) == operation_views(s).push(o@),
{
    assert(operation_views(s.push(o)) =~= operation_views(s).push(o@));
}

proof fn lemma_step_views_tail(a: Seq<Step>)
    requires
        a.len() > 0,
    ensures
        step_views(a)[0] == a[0]@,
        step_views(a.remove(0)) =~= step_views(a).subrange(1, a.len() as int),
{
}

proof fn lemma_operation_views_tail(a: Seq<Operation>)
    requires
        a.len() > 0,
    ensures
        operation_views(a)[0] == a[0]@,
        operation_views(a.remove(0)) =~= operation_views(a).subrange(1, a.len() as int),
{
}

/// Once a run fails, no later step makes it succeed, and the failure stays.
pub proof fn lemma_run_error_persists(g: GraphView, pre: Seq<StepView>, all: Seq<StepView>)
    requires
        run(g, pre) is Err,
        pre.len() <= all.len(),
        all.subrange(0, pre.len() as int) == pre,
    ensures
        run(g, all) == run(g, pre),
    decreases all.len(),
{
    if all.len() > pre.len() {
        assert(all.drop_last().subrange(0, pre.len() as int) =~= pre);
        lemma_run_error_persists(g, pre, all.drop_last());
    } else {
        assert(all =~= pre);
    }
}

/// Once a replay fails, the failure stays.
pub proof fn lemma_replay_error_persists(
    g: GraphView,
    pre: Seq<OperationView>,
    all: Seq<OperationView>,
)
    requires
        replay(g, pre) is Err,
        pre.len() <= all.len(),
        all.subrange(0, pre.len() as int) == pre,
    ensures
        replay(g, all) == replay(g, pre),
    decreases all.len(),
{
    if all.len() > pre.len() {
        assert(all.drop_last().subrange(0, pre.len() as int) =~= pre);
        lemma_replay_error_persists(g, pre, all.drop_last());
    } else {
        assert(all =~= pre);
    }
}

/// Replays the operation log against an empty graph: every step is
/// validated in log order, and the first refusal aborts the build.
pub fn compile(ops: Vec<Operation>) -> (r: Result<CompiledGraph, BuildError>)
    ensures
        match compile_model(operation_views(ops@)) {
            Ok(c) => r matches Ok(x) && x@ == c,
            Err(e) => r matches Err(x) && x@ == e,
        },
{
    let ghost all = operation_views(ops@);
    let mut c = Compiler::new();
    let mut rest = ops;
    let ghost mut i: int = 0;
    while rest.len() > 0
        invariant
            graph_wf(c@),
            all == operation_views(ops@),
            0 <= i,
            i + rest.len() == all.len(),
            operation_views(rest@) =~= all.subrange(i, all.len() as int),
            replay(empty_graph(), all.subrange(0, i)) == Ok::<GraphView, Failure>(c@),
        decreases rest.len(),
    {
        let ghost old_rest = rest@;
        proof {
            lemma_operation_views_tail(old_rest);
        }
        let op = rest.remove(0);
        let ghost before = c@;
        assert(op@ == all[i]);
        assert(operation_views(rest@) =~= all.subrange(i + 1, all.len() as int));
        assert(all.subrange(0, i + 1).last() == all[i]);
        let r = match op {
            Operation::AddStep(s) => c.push_step(s),
            Operation::AddBundle(b) => match b.failure {
                Some(m) => Err(BuildError::BundleExpansionFailed(m)),
                None => c.push_steps(b.steps),
            },
        };
        proof {
            assert(all.subrange(0, i + 1).drop_last() =~= all.subrange(0, i));
            if let OperationView::AddStep(s) = all[i] {
                lemma_apply_step_wf(before, s);
            } else if let OperationView::AddBundle { steps, failure } = all[i] {
                lemma_run_wf(before, steps);
            }
        }
        match r {
            Err(e) => {
                proof {
                    lemma_replay_error_persists(empty_graph(), all.subrange(0, i + 1), all);
                }
                return Err(e);
            },
            Ok(()) => {},
        }
        proof {
            i = i + 1;
        }
    }
    assert(all.subrange(0, i) =~= all);
    Ok(CompiledGraph { nodes: c.nodes, thread_local: c.locals })
}

} // verus!
