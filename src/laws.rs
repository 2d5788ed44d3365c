use vstd::prelude::*;

use crate::graph::{
    all_declared, apply_step, compile_model, declared, empty_graph, first_unknown, graph_wf,
    lemma_apply_step_wf, lemma_replay_wf, lemma_run_wf, named, replay, run, CompiledView, Failure,
    GraphView, OperationView, StepView, edge_named, edges_named,
};

verus! {

/// Step `i` registers a parallel unit under the non-empty name `name`.
pub open spec fn registers(steps: Seq<StepView>, name: Seq<char>, i: int) -> bool {
    &&& 0 <= i < steps.len()
    &&& name.len() > 0
    &&& steps[i] matches StepView::System { name: n, .. }
    &&& n == name
}

pub open spec fn registered(steps: Seq<StepView>, name: Seq<char>) -> bool {
    exists|i: int| registers(steps, name, i)
}

/// The run of `a + b` is the run of `b` from where the run of `a` ended.
pub proof fn lemma_run_append(g: GraphView, a: Seq<StepView>, b: Seq<StepView>)
    ensures
        run(g, a + b) == match run(g, a) {
            Ok(h) => run(h, b),
            Err(e) => Err(e),
        },
    decreases b.len(),
{
    if b.len() == 0 {
        assert(a + b =~= a);
    } else {
        lemma_run_append(g, a, b.drop_last());
        assert((a + b).drop_last() =~= a + b.drop_last());
        assert((a + b).last() == b.last());
    }
}

/// After a successful run, the names that the nodes carry are exactly the
/// non-empty names that the steps registered.
pub proof fn lemma_run_names(steps: Seq<StepView>)
    ensures
        run(empty_graph(), steps) matches Ok(h) ==> forall|name: Seq<char>|
            declared(h.nodes, name) <==> registered(steps, name),
    decreases steps.len(),
{
    if steps.len() > 0 {
        let pre = steps.drop_last();
        let n = pre.len() as int;
        lemma_run_names(pre);
        lemma_run_wf(empty_graph(), pre);
        if let Ok(h) = run(empty_graph(), steps) {
            assert(run(empty_graph(), pre) is Ok);
            let h0 = run(empty_graph(), pre)->Ok_0;
            assert(run(empty_graph(), steps) == apply_step(h0, steps.last()));
            assert(forall|name: Seq<char>| declared(h0.nodes, name) <==> registered(pre, name));
            lemma_apply_step_wf(h0, steps.last());
            let m = h0.nodes.len() as int;
            assert forall|name: Seq<char>| declared(h.nodes, name) <==> registered(
                steps,
                name,
            ) by {
                if declared(h.nodes, name) {
                    let i = choose|i: int| named(h.nodes, name, i);
                    if i < m {
                        assert(h.nodes[i] == h.nodes.subrange(0, m)[i]);
                        assert(named(h0.nodes, name, i));
                        assert(registered(pre, name));
                        let j = choose|j: int| registers(pre, name, j);
                        assert(pre[j] == steps[j]);
                        assert(registers(steps, name, j));
                    } else {
                        assert(registers(steps, name, n));
                    }
                }
                if registered(steps, name) {
                    let j = choose|j: int| registers(steps, name, j);
                    if j < n {
                        assert(pre[j] == steps[j]);
                        assert(registers(pre, name, j));
                        assert(registered(pre, name));
                        assert(declared(h0.nodes, name));
                        let i = choose|i: int| named(h0.nodes, name, i);
                        assert(h.nodes[i] == h.nodes.subrange(0, m)[i]);
                        assert(named(h.nodes, name, i));
                    } else {
                        assert(named(h.nodes, name, m));
                    }
                }
            }
        }
    }
}

/// Every dependency of a parallel unit was registered before it.
pub open spec fn dependencies_registered(pre: Seq<StepView>, s: StepView) -> bool {
    s matches StepView::System { dependencies, .. } && forall|k: int|
        0 <= k < dependencies.len() ==> registered(pre, #[trigger] dependencies[k])
}

/// Two parallel units that share a non-empty name never compile, whatever
/// stands between them, barriers included. Where nothing else is wrong up
/// to the second of them, the failure is `DuplicateName` with that name.
pub proof fn duplicate_name_fails(steps: Seq<StepView>, name: Seq<char>, i: int, j: int)
    requires
        registers(steps, name, i),
        registers(steps, name, j),
        i < j,
    ensures
        run(empty_graph(), steps) is Err,
        run(empty_graph(), steps.take(j)) is Ok && dependencies_registered(
            steps.take(j),
            steps[j],
        ) ==> run(empty_graph(), steps) == Err::<GraphView, Failure>(
            Failure::DuplicateName(name),
        ),
{
    let pre = steps.take(j);
    let upto = steps.take(j + 1);
    assert(upto.drop_last() =~= pre);
    assert(steps =~= upto + steps.skip(j + 1));
    lemma_run_append(empty_graph(), upto, steps.skip(j + 1));
    lemma_run_names(pre);
    if let Ok(h) = run(empty_graph(), pre) {
        assert(pre[i] == steps[i]);
        assert(registers(pre, name, i));
        assert(registered(pre, name));
        assert(declared(h.nodes, name));
        if dependencies_registered(pre, steps[j]) {
            if let StepView::System { dependencies, .. } = steps[j] {
                assert forall|k: int| 0 <= k < dependencies.len() implies declared(
                    h.nodes,
                    #[trigger] dependencies[k],
                ) by {
                    assert(registered(pre, dependencies[k]));
                }
                assert(all_declared(h.nodes, dependencies));
            }
        }
    }
}

/// A parallel unit that names a dependency that no earlier step registered
/// never compiles. Where nothing else is wrong before it, the failure is
/// `UnknownDependency` with the first such name.
pub proof fn unknown_dependency_fails(
    steps: Seq<StepView>,
    j: int,
    id: u64,
    name: Seq<char>,
    dependencies: Seq<Seq<char>>,
    k: int,
)
    requires
        0 <= j < steps.len(),
        steps[j] == (StepView::System { id, name, dependencies }),
        0 <= k < dependencies.len(),
        !registered(steps.take(j), dependencies[k]),
    ensures
        run(empty_graph(), steps) is Err,
        run(empty_graph(), steps.take(j)) is Ok && (forall|m: int|
            0 <= m < k ==> registered(steps.take(j), #[trigger] dependencies[m]))
            ==> run(empty_graph(), steps) == Err::<GraphView, Failure>(
            Failure::UnknownDependency(dependencies[k]),
        ),
{
    let pre = steps.take(j);
    let upto = steps.take(j + 1);
    assert(upto.drop_last() =~= pre);
    assert(steps =~= upto + steps.skip(j + 1));
    lemma_run_append(empty_graph(), upto, steps.skip(j + 1));
    lemma_run_names(pre);
    if let Ok(h) = run(empty_graph(), pre) {
        assert(!declared(h.nodes, dependencies[k]));
        assert(!all_declared(h.nodes, dependencies));
        if forall|m: int| 0 <= m < k ==> registered(pre, #[trigger] dependencies[m]) {
            assert(forall|m: int| 0 <= m < k ==> declared(h.nodes, #[trigger] dependencies[m]));
            let c = first_unknown(h.nodes, dependencies);
            assert(0 <= k < dependencies.len() && !declared(h.nodes, dependencies[k]) && forall|
                m: int,
            | 0 <= m < k ==> declared(h.nodes, #[trigger] dependencies[m]));
            if c < k {
                assert(declared(h.nodes, dependencies[c]));
            } else if c > k {
                assert(declared(h.nodes, dependencies[k]));
            }
        }
    }
}

/// No unit was registered since the start or the last barrier.
pub open spec fn generation_idle(r: Result<GraphView, Failure>) -> bool {
    r matches Ok(g) ==> g.gen_start == g.nodes.len()
}

/// A barrier with no unit before it in its generation changes nothing: the
/// log with it compiles exactly as the log without it.
pub proof fn idle_barrier_is_no_op(before: Seq<StepView>, after: Seq<StepView>)
    requires
        generation_idle(run(empty_graph(), before)),
    ensures
        run(empty_graph(), before.push(StepView::Barrier) + after) == run(
            empty_graph(),
            before + after,
        ),
{
    lemma_run_append(empty_graph(), before.push(StepView::Barrier), after);
    lemma_run_append(empty_graph(), before, after);
    assert(before.push(StepView::Barrier).drop_last() =~= before);
    lemma_run_wf(empty_graph(), before);
}

/// A barrier with no unit after it leaves the graph and the thread-local
/// units as they were.
pub proof fn trailing_barrier_is_no_op(before: Seq<StepView>)
    ensures
        match (run(empty_graph(), before.push(StepView::Barrier)), run(empty_graph(), before)) {
            (Ok(a), Ok(b)) => a.nodes == b.nodes && a.locals == b.locals,
            (Err(a), Err(b)) => a == b,
            _ => false,
        },
{
    assert(before.push(StepView::Barrier).drop_last() =~= before);
}

/// Every edge of the graph points to an earlier node, and the `t`-th
/// declared dependency of a node is the node that its `t`-th edge points to.
pub open spec fn edges_respected(c: CompiledView) -> bool {
    edges_backward(c) && edges_named(c.nodes)
}

pub open spec fn edges_backward(c: CompiledView) -> bool {
    forall|i: int, t: int|
        0 <= i < c.nodes.len() && 0 <= t < c.nodes[i].after.len() ==> 0
            <= #[trigger] c.nodes[i].after[t] < i
}


/// In a compiled graph every declared dependency became an edge to the
/// earlier node of that name, and every edge points to an earlier node: a
/// schedule that starts a node only after the targets of its edges have
/// completed runs every unit after all of its named dependencies.
pub proof fn compiled_edges_respect_dependencies(ops: Seq<OperationView>)
    ensures
        compile_model(ops) matches Ok(c) ==> edges_respected(c),
{
    lemma_replay_wf(empty_graph(), ops);
    if let Ok(c) = compile_model(ops) {
        let g = replay(empty_graph(), ops)->Ok_0;
        assert(graph_wf(empty_graph()));
        assert(c.nodes == g.nodes);
        assert forall|i: int, t: int|
            0 <= i < c.nodes.len() && 0 <= t < c.nodes[i].after.len() implies 0
                <= #[trigger] c.nodes[i].after[t] < i by {
            assert(0 <= g.nodes[i].after[t] < i);
        }
        assert(edges_backward(c));
        assert(edges_named(c.nodes));
    }
}

/// The ids of the thread-local steps, in the order of the steps.
pub open spec fn local_ids(steps: Seq<StepView>) -> Seq<u64>
    decreases steps.len(),
{
    if steps.len() == 0 {
        Seq::empty()
    } else {
        match steps.last() {
            StepView::ThreadLocal { id } => local_ids(steps.drop_last()).push(id),
            _ => local_ids(steps.drop_last()),
        }
    }
}

/// Thread-local units keep the order in which they were registered, and
/// barriers do not touch them: a successful run appends exactly the
/// thread-local steps, in order.
pub proof fn thread_local_units_keep_registration_order(g: GraphView, steps: Seq<StepView>)
    ensures
        run(g, steps) matches Ok(h) ==> h.locals == g.locals + local_ids(steps),
    decreases steps.len(),
{
    if steps.len() == 0 {
        assert(g.locals + local_ids(steps) =~= g.locals);
    } else {
        thread_local_units_keep_registration_order(g, steps.drop_last());
        if let Ok(h) = run(g, steps) {
            let h0 = run(g, steps.drop_last())->Ok_0;
            if let StepView::ThreadLocal { id } = steps.last() {
                assert(h.locals =~= g.locals + local_ids(steps));
            }
        }
    }
}

/// The steps that an operation log stands for, bundles expanded in place.
pub open spec fn expand(ops: Seq<OperationView>) -> Seq<StepView>
    decreases ops.len(),
{
    if ops.len() == 0 {
        Seq::empty()
    } else {
        expand(ops.drop_last()) + match ops.last() {
            OperationView::AddStep(s) => seq![s],
            OperationView::AddBundle { steps, .. } => steps,
        }
    }
}

/// No bundle of the log fails to expand.
pub open spec fn bundles_expand(ops: Seq<OperationView>) -> bool {
    forall|i: int|
        0 <= i < ops.len() ==> !(#[trigger] ops[i] matches OperationView::AddBundle {
            failure: Some(_),
            ..
        })
}

pub proof fn lemma_expand_append(a: Seq<OperationView>, b: Seq<OperationView>)
    ensures
        expand(a + b) == expand(a) + expand(b),
    decreases b.len(),
{
    if b.len() == 0 {
        assert(a + b =~= a);
        assert(expand(a) + expand(b) =~= expand(a));
    } else {
        lemma_expand_append(a, b.drop_last());
        assert((a + b).drop_last() =~= a + b.drop_last());
        assert((a + b).last() == b.last());
        let tail = match b.last() {
            OperationView::AddStep(s) => seq![s],
            OperationView::AddBundle { steps, .. } => steps,
        };
        assert(expand(a) + expand(b.drop_last()) + tail =~= expand(a) + (expand(b.drop_last())
            + tail));
    }
}

/// Where no bundle fails, replaying the log is running its expanded steps.
pub proof fn lemma_replay_is_run(g: GraphView, ops: Seq<OperationView>)
    requires
        bundles_expand(ops),
    ensures
        replay(g, ops) == run(g, expand(ops)),
    decreases ops.len(),
{
    if ops.len() > 0 {
        let pre = ops.drop_last();
        assert(bundles_expand(pre)) by {
            assert forall|i: int| 0 <= i < pre.len() implies !(#[trigger] pre[i] matches OperationView::AddBundle {
                failure: Some(_),
                ..
            }) by {
                assert(pre[i] == ops[i]);
            }
        }
        lemma_replay_is_run(g, pre);
        assert(!(ops[ops.len() - 1] matches OperationView::AddBundle { failure: Some(_), .. }));
        match ops.last() {
            OperationView::AddStep(s) => {
                assert(expand(ops) == expand(pre) + seq![s]);
                lemma_run_append(g, expand(pre), seq![s]);
                assert(seq![s].drop_last() =~= Seq::<StepView>::empty());
                assert(seq![s].last() == s);
                if let Ok(h) = run(g, expand(pre)) {
                    assert(run(h, Seq::<StepView>::empty()) == Ok::<GraphView, Failure>(h));
                    assert(run(h, seq![s]) == apply_step(h, s));
                }
            },
            OperationView::AddBundle { steps, failure } => {
                assert(expand(ops) == expand(pre) + steps);
                assert(failure is None);
                lemma_run_append(g, expand(pre), steps);
            },
        }
    }
}

/// Unique non-empty names, and every dependency named by an earlier unit.
pub open spec fn valid_steps(steps: Seq<StepView>) -> bool {
    forall|j: int|
        0 <= j < steps.len() ==> (#[trigger] steps[j] matches StepView::System { name, .. }
            ==> dependencies_registered(steps.take(j), steps[j]) && !registered(
            steps.take(j),
            name,
        ))
}

/// Steps compile exactly when they are valid.
pub proof fn lemma_run_ok_iff_valid(steps: Seq<StepView>)
    ensures
        run(empty_graph(), steps) is Ok <==> valid_steps(steps),
    decreases steps.len(),
{
    if steps.len() > 0 {
        let pre = steps.drop_last();
        let n = pre.len() as int;
        lemma_run_ok_iff_valid(pre);
        lemma_run_names(pre);
        assert(steps.take(n) =~= pre);
        if valid_steps(steps) {
            assert(valid_steps(pre)) by {
                assert forall|j: int| 0 <= j < pre.len() implies (#[trigger] pre[j] matches StepView::System {
                    name,
                    ..
                } ==> dependencies_registered(pre.take(j), pre[j]) && !registered(
                    pre.take(j),
                    name,
                )) by {
                    assert(pre[j] == steps[j]);
                    assert(pre.take(j) =~= steps.take(j));
                }
            }
            let h = run(empty_graph(), pre)->Ok_0;
            assert(steps[n] == steps.last());
            if let StepView::System { name, dependencies, .. } = steps.last() {
                assert forall|k: int| 0 <= k < dependencies.len() implies declared(
                    h.nodes,
                    #[trigger] dependencies[k],
                ) by {
                    assert(registered(pre, dependencies[k]));
                }
                assert(!registered(pre, name));
            }
        } else {
            let j = choose|j: int|
                0 <= j < steps.len() && !(#[trigger] steps[j] matches StepView::System { name, .. }
                    ==> dependencies_registered(steps.take(j), steps[j]) && !registered(
                    steps.take(j),
                    name,
                ));
            if let StepView::System { id, name, dependencies } = steps[j] {
                if !dependencies_registered(steps.take(j), steps[j]) {
                    let k = choose|k: int|
                        0 <= k < dependencies.len() && !registered(
                            steps.take(j),
                            #[trigger] dependencies[k],
                        );
                    unknown_dependency_fails(steps, j, id, name, dependencies, k);
                } else {
                    let i = choose|i: int| registers(steps.take(j), name, i);
                    assert(steps.take(j)[i] == steps[i]);
                    assert(registers(steps, name, i));
                    assert(registers(steps, name, j));
                    duplicate_name_fails(steps, name, i, j);
                }
            }
        }
    } else {
        assert(valid_steps(steps));
    }
}

/// An operation log whose bundles expand compiles exactly when its expanded
/// steps have unique non-empty names and name only earlier units as
/// dependencies. Otherwise it fails: with `DuplicateName` or
/// `UnknownDependency`, as the laws on steps say.
pub proof fn log_compiles_iff_valid(ops: Seq<OperationView>)
    requires
        bundles_expand(ops),
    ensures
        compile_model(ops) is Ok <==> valid_steps(expand(ops)),
        compile_model(ops) is Ok ==> edges_respected(compile_model(ops)->Ok_0),
{
    lemma_replay_is_run(empty_graph(), ops);
    lemma_run_ok_iff_valid(expand(ops));
    compiled_edges_respect_dependencies(ops);
}

/// A barrier added to a log where no unit was registered since the start or
/// the last barrier leaves the compiled graph and the thread-local units
/// exactly as they were.
pub proof fn log_idle_barrier_is_no_op(before: Seq<OperationView>, after: Seq<OperationView>)
    requires
        bundles_expand(before + after),
        generation_idle(run(empty_graph(), expand(before))),
    ensures
        compile_model(before.push(OperationView::AddStep(StepView::Barrier)) + after)
            == compile_model(before + after),
{
    let with = before.push(OperationView::AddStep(StepView::Barrier)) + after;
    assert(bundles_expand(with)) by {
        assert forall|i: int| 0 <= i < with.len() implies !(#[trigger] with[i] matches OperationView::AddBundle {
            failure: Some(_),
            ..
        }) by {
            if i < before.len() {
                assert(with[i] == (before + after)[i]);
            } else if i > before.len() {
                assert(with[i] == (before + after)[i - 1]);
            }
        }
    }
    lemma_replay_is_run(empty_graph(), with);
    lemma_replay_is_run(empty_graph(), before + after);
    lemma_expand_append(before.push(OperationView::AddStep(StepView::Barrier)), after);
    lemma_expand_append(before, after);
    let one = seq![OperationView::AddStep(StepView::Barrier)];
    assert(before.push(OperationView::AddStep(StepView::Barrier)) =~= before + one);
    lemma_expand_append(before, one);
    assert(one.drop_last() =~= Seq::<OperationView>::empty());
    assert(one.last() == OperationView::AddStep(StepView::Barrier));
    assert(expand(Seq::<OperationView>::empty()) == Seq::<StepView>::empty());
    assert(expand(one) =~= seq![StepView::Barrier]);
    assert(expand(before) + seq![StepView::Barrier] =~= expand(before).push(StepView::Barrier));
    idle_barrier_is_no_op(expand(before), expand(after));
}

} // verus!
