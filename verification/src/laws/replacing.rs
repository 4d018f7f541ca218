//! Which nodes of a model are replaced.
use std::sync::Arc;
use vstd::prelude::*;

use crate::laws::scattering;
use crate::rewrite;
use crate::rewrite::{Action, Event, Graph, NodeKind, Phase, RewriteError, Rewriter};
use crate::scatter;
use crate::scatter::{FastScatterConst, PlanError};
use crate::tensor;

verus! {

/// A rewriting starts with the first node, if there is one; without nodes there is nothing to do.
pub proof fn rewriting_starts_with_the_first_node(node_count: usize, r: (Rewriter, Action))
    requires
        call_ensures(Rewriter::start, (node_count,), r),
    ensures
        r.0.node_count == node_count,
        r.0.id == 0,
        r.0.count == 0,
        node_count > 0 ==> r.1 == Action::Inspect(0) && r.0.phase is Inspecting,
        node_count == 0 ==> r.1 == Action::Finish(0) && r.0.phase is Done,
{
}

/// What a node turns out to be decides how it goes on. Only of a `ScatterNd` node that overwrites
/// and has three inputs the shape is asked for; only if that is fixed, the indices; and only if
/// they are constant, the node is replaced, or the rewriting fails. In all other cases, and once
/// the node is replaced, the next node is inspected. Behind the last node the model is cleaned up,
/// if anything was replaced, and the rewriting is over.
pub proof fn nodes_are_replaced_if_they_qualify(r: &mut Rewriter, event: Event, action: Action)
    requires
        old(r).wf(),
        old(r).awaits(event),
        call_ensures(Rewriter::step, (r, event), action),
    ensures
        final(r).node_count == old(r).node_count,
        final(r).count == old(r).count + (if event is Replaced {
            1int
        } else {
            0int
        }),
        event matches Event::Node(kind) ==> (action == Action::ReadShape(old(r).id) <==> kind == (
        NodeKind::Scatter { reduces: false, inputs: 3 })),
        event matches Event::Shape(shape) ==> (action == Action::ReadIndices(old(r).id) <==> shape
            is Some),
        event matches Event::Indices(indices) ==> (indices is Some <==> action is Replace || action
            is Fail),
        action is Replace ==> event is Indices && action->Replace_0 == old(r).id,
        action is ReadShape || action is ReadIndices || action is Replace ==> final(r).id == old(
            r,
        ).id,
        !(action is ReadShape || action is ReadIndices || action is Replace || action is Fail
            || event is Decluttered) ==> {
            &&& final(r).id == old(r).id + 1
            &&& action == (if final(r).id < final(r).node_count {
                Action::Inspect(final(r).id)
            } else if final(r).count > 0 {
                Action::Declutter
            } else {
                Action::Finish(0)
            })
        },
        event is Decluttered ==> action == Action::Finish(old(r).count),
{
}

/// The plan for a node is that of the shape of its data and of its indices.
pub proof fn nodes_are_replaced_by_their_plan(
    r: &mut Rewriter,
    shape: Vec<usize>,
    indices: Arc<tract_onnx::prelude::Tensor>,
    action: Action,
)
    requires
        old(r).wf(),
        old(r).phase == Phase::ReadingIndices(shape),
        call_ensures(Rewriter::step, (r, Event::Indices(Some(indices))), action),
        tensor::tensor_is_plain(*indices),
        tensor::tensor_integers(*indices) is Some,
        tensor::tensor_dims(*indices).len() > 0,
        tensor::tensor_dims(*indices).last() <= shape@.len(),
        scattering::product(tensor::tensor_dims(*indices), 0) <= usize::MAX,
        tensor::tensor_integers(*indices)->0.len() == scattering::product(
            tensor::tensor_dims(*indices),
            0,
        ),
    ensures
        action is Replace || action == Action::Fail(PlanError::NegativeIndex) || action
            == Action::Fail(PlanError::TooLarge),
        action is Replace ==> {
            let k = tensor::tensor_dims(*indices).last() as int;
            let count = scattering::product(tensor::tensor_dims(*indices).drop_last(), 0);
            let plan = action->Replace_1;
            &&& plan.slice_size == scattering::product(shape@, k)
            &&& plan.blocks@.len() == count
            &&& forall|m: int|
                0 <= m < count ==> {
                    &&& (#[trigger] plan.blocks@[m]).0 == scattering::number_of(
                        shape@,
                        tensor::tensor_integers(*indices)->0,
                        m * k,
                        k,
                    ) * scattering::product(shape@, k)
                    &&& plan.blocks@[m].1 == m * scattering::product(shape@, k)
                }
        },
{
    assert(shape.len() == shape@.len());
    if action is Replace {
        scattering::lemma_build(shape@, &*indices, Ok(action->Replace_1));
    } else {
        scattering::lemma_build(shape@, &*indices, Err(action->Fail_0));
    }
}

// A whole rewriting.

/// How many of the first `n` nodes qualify.
pub open spec fn tally(qualifies: spec_fn(usize) -> bool, n: int) -> int
    decreases n,
{
    if n <= 0 {
        0
    } else {
        tally(qualifies, n - 1) + (if qualifies((n - 1) as usize) {
            1int
        } else {
            0int
        })
    }
}

/// A graph that tells of each node, whatever was replaced before, whether it is a `ScatterNd` node
/// that overwrites and has three inputs, whether the shape of its data is fixed, and whether its
/// indices are constant; and on which nothing fails.
pub open spec fn tells<G: Graph>(
    scatters: spec_fn(usize) -> bool,
    fixed: spec_fn(usize) -> bool,
    constant: spec_fn(usize) -> bool,
) -> bool {
    &&& forall|g: G, id: usize, kind: NodeKind|
        #[trigger] call_ensures(G::kind, (&g, id), kind) ==> (kind == (NodeKind::Scatter {
            reduces: false,
            inputs: 3,
        }) <==> scatters(id))
    &&& forall|g: G, id: usize, shape: Result<Option<Vec<usize>>, G::Error>|
        #[trigger] call_ensures(G::data_shape, (&g, id), shape) ==> shape is Ok && (shape->Ok_0
            is Some <==> fixed(id))
    &&& forall|
        g: G,
        id: usize,
        indices: Result<Option<Arc<tract_onnx::prelude::Tensor>>, G::Error>,
    |
        #[trigger] call_ensures(G::indices, (&g, id), indices) ==> indices is Ok && (indices->Ok_0
            is Some <==> constant(id))
    &&& forall|
        g: G,
        id: usize,
        plan: FastScatterConst,
        r: (G, Result<(), G::Error>),
    |
        #[trigger] call_ensures(G::replaced, (g, id, plan), r) ==> r.1 is Ok
    &&& forall|g: G, r: (G, Result<(), G::Error>)|
        #[trigger] call_ensures(G::decluttered, (g,), r) ==> r.1 is Ok
}

#[verifier::rlimit(60)]
proof fn lemma_tallied<G: Graph>(
    scatters: spec_fn(usize) -> bool,
    fixed: spec_fn(usize) -> bool,
    constant: spec_fn(usize) -> bool,
    graph: G,
    graphs: Seq<G>,
    states: Seq<Rewriter>,
    events: Seq<Event>,
    actions: Seq<Action>,
    k: int,
)
    requires
        tells::<G>(scatters, fixed, constant),
        rewrite::under_way(graph, graphs, states, events, actions),
        0 <= k <= events.len(),
    ensures
        states[k].node_count == states[0].node_count,
        states[k].id <= states[k].node_count,
        !(actions[k] is Fail) ==> states[k].count == tally(
            |id: usize| scatters(id) && fixed(id) && constant(id),
            states[k].id as int,
        ),
        actions[k] matches Action::Inspect(id) ==> id == states[k].id && id < states[k].node_count
            && states[k].phase is Inspecting,
        actions[k] matches Action::ReadShape(id) ==> id == states[k].id && id
            < states[k].node_count && states[k].phase is ReadingShape && scatters(id),
        actions[k] matches Action::ReadIndices(id) ==> id == states[k].id && id
            < states[k].node_count && states[k].phase is ReadingIndices && scatters(id) && fixed(
            id,
        ),
        actions[k] matches Action::Replace(id, plan) ==> id == states[k].id && id
            < states[k].node_count && states[k].phase is Replacing && scatters(id) && fixed(id)
            && constant(id),
        actions[k] is Declutter ==> states[k].phase is Decluttering && states[k].id
            == states[k].node_count,
        actions[k] matches Action::Finish(count) ==> states[k].phase is Done && count
            == states[k].count && states[k].id == states[k].node_count,
        actions[k] is Fail ==> states[k].phase is Done,
    decreases k,
{
    if k > 0 {
        lemma_tallied(
            scatters,
            fixed,
            constant,
            graph,
            graphs,
            states,
            events,
            actions,
            k - 1,
        );
        assert(rewrite::carries_on(graphs, states, events, actions, k - 1));
        let g = graphs[k - 1];
        let after = graphs[k - 1 + 1];
        let next = states[k - 1 + 1];
        let q = |id: usize| scatters(id) && fixed(id) && constant(id);
        let id = states[k - 1].id;
        if next.id == id + 1 {
            assert(tally(q, id + 1) == tally(q, id as int) + (if q(id) {
                1int
            } else {
                0int
            }));
        }
        assert(rewrite::carries_out(g, actions[k - 1], events[k - 1], after));
        match (actions[k - 1], events[k - 1]) {
            (Action::Inspect(i), Event::Node(kind)) => {
                assert(call_ensures(G::kind, (&g, i), kind));
            },
            (Action::ReadShape(i), Event::Shape(shape)) => {
                assert(call_ensures(G::data_shape, (&g, i), Ok(shape)));
            },
            (Action::ReadIndices(i), Event::Indices(indices)) => {
                assert(call_ensures(G::indices, (&g, i), Ok(indices)));
            },
            _ => {},
        }
    }
}

/// Every node that qualifies is replaced, and no other: where nothing fails, a rewriting gives the
/// number of `ScatterNd` nodes that overwrite, have three inputs, data of a fixed shape and
/// constant indices.
pub proof fn qualifying_nodes_are_replaced<G: Graph>(
    scatters: spec_fn(usize) -> bool,
    fixed: spec_fn(usize) -> bool,
    constant: spec_fn(usize) -> bool,
    graph: G,
    node_count: usize,
    r: (G, Result<usize, RewriteError<G::Error>>),
)
    requires
        tells::<G>(scatters, fixed, constant),
        forall|n: usize| #[trigger] call_ensures(G::node_count, (&graph,), n) ==> n == node_count,
        call_ensures(rewrite::replace_const_scatternd::<G>, (graph,), r),
    ensures
        r.1 matches Ok(count) ==> count == tally(
            |id: usize| scatters(id) && fixed(id) && constant(id),
            node_count as int,
        ),
        r.1 matches Err(e) ==> e is Plan,
        tally(|id: usize| scatters(id) && fixed(id) && constant(id), node_count as int) == 0
            ==> r.1 is Ok && r.0 == graph,
{
    assert(rewrite::rewrites(graph, r.0, r.1));
    let (graphs, states, events, actions) = choose|
        graphs: Seq<G>,
        states: Seq<Rewriter>,
        events: Seq<Event>,
        actions: Seq<Action>,
    |
        {
            &&& #[trigger] rewrite::under_way(graph, graphs, states, events, actions)
            &&& rewrite::ends(graphs.last(), actions.last(), r.0, r.1)
        };
    let n = events.len() as int;
    lemma_tallied(scatters, fixed, constant, graph, graphs, states, events, actions, n);
    let g = graphs.last();
    if r.1 is Err && r.1->Err_0 is Graph {
        let e = r.1->Err_0->Graph_0;
        assert(rewrite::carrying_out_fails(g, actions.last(), e, r.0));
        match actions.last() {
            Action::ReadShape(id) => {
                let reply = Err::<Option<Vec<usize>>, G::Error>(e);
                assert(call_ensures(G::data_shape, (&g, id), reply));
            },
            Action::ReadIndices(id) => {
                let reply = Err::<Option<Arc<tract_onnx::prelude::Tensor>>, G::Error>(e);
                assert(call_ensures(G::indices, (&g, id), reply));
            },
            Action::Replace(id, plan) => {
                let reply = (r.0, Err::<(), G::Error>(e));
                assert(call_ensures(G::replaced, (g, id, plan), reply));
            },
            Action::Declutter => {
                let reply = (r.0, Err::<(), G::Error>(e));
                assert(call_ensures(G::decluttered, (g,), reply));
            },
            _ => {},
        }
    }
    let q = |id: usize| scatters(id) && fixed(id) && constant(id);
    if tally(q, node_count as int) == 0 {
        lemma_untouched(scatters, fixed, constant, graph, graphs, states, events, actions, n);
    }
}

proof fn lemma_tally_not_negative(q: spec_fn(usize) -> bool, n: int)
    ensures
        tally(q, n) >= 0,
    decreases n,
{
    if n > 0 {
        lemma_tally_not_negative(q, n - 1);
    }
}

proof fn lemma_none_qualifies(q: spec_fn(usize) -> bool, n: int)
    requires
        tally(q, n) == 0,
    ensures
        forall|id: usize| 0 <= id < n ==> !#[trigger] q(id),
        forall|k: int| k <= n ==> #[trigger] tally(q, k) == 0,
    decreases n,
{
    if n > 0 {
        lemma_tally_not_negative(q, n - 1);
        lemma_none_qualifies(q, n - 1);
        assert forall|id: usize| 0 <= id < n implies !#[trigger] q(id) by {
            if id == n - 1 {
                assert(!q((n - 1) as usize));
            }
        }
    }
}

#[verifier::rlimit(60)]
proof fn lemma_untouched<G: Graph>(
    scatters: spec_fn(usize) -> bool,
    fixed: spec_fn(usize) -> bool,
    constant: spec_fn(usize) -> bool,
    graph: G,
    graphs: Seq<G>,
    states: Seq<Rewriter>,
    events: Seq<Event>,
    actions: Seq<Action>,
    k: int,
)
    requires
        tells::<G>(scatters, fixed, constant),
        rewrite::under_way(graph, graphs, states, events, actions),
        tally(
            |id: usize| scatters(id) && fixed(id) && constant(id),
            states[0].node_count as int,
        ) == 0,
        0 <= k <= events.len(),
    ensures
        graphs[k] == graph,
        !(actions[k] is Fail || actions[k] is Declutter || actions[k] is Replace),
    decreases k,
{
    let q = |id: usize| scatters(id) && fixed(id) && constant(id);
    lemma_none_qualifies(q, states[0].node_count as int);
    lemma_tallied(scatters, fixed, constant, graph, graphs, states, events, actions, k);
    if k > 0 {
        lemma_untouched(
            scatters,
            fixed,
            constant,
            graph,
            graphs,
            states,
            events,
            actions,
            k - 1,
        );
        lemma_tallied(
            scatters,
            fixed,
            constant,
            graph,
            graphs,
            states,
            events,
            actions,
            k - 1,
        );
        assert(rewrite::carries_on(graphs, states, events, actions, k - 1));
        let g = graphs[k - 1];
        match (actions[k - 1], events[k - 1]) {
            (Action::ReadIndices(i), Event::Indices(indices)) => {
                assert(call_ensures(G::indices, (&g, i), Ok(indices)));
                assert(!q(i));
            },
            _ => {},
        }
    }
}

// What is done to the graph.

/// The plan is that for node `id` of the graph: the node is a `ScatterNd` node that overwrites and
/// has three inputs, and the plan is made from the fixed shape of its data and its constant
/// indices.
pub open spec fn is_planned<G: Graph>(g: G, id: usize, plan: FastScatterConst) -> bool {
    &&& call_ensures(G::kind, (&g, id), NodeKind::Scatter { reduces: false, inputs: 3 })
    &&& exists|shape: Vec<usize>, indices: Arc<tract_onnx::prelude::Tensor>|
        {
            &&& #[trigger] call_ensures(G::data_shape, (&g, id), Ok(Some(shape)))
            &&& #[trigger] call_ensures(G::indices, (&g, id), Ok(Some(indices)))
            &&& scatter::build_result_is(shape@, *indices, Ok(plan))
        }
}

/// There is no plan for node `id` of the graph for the reason `e`, although the node is a
/// `ScatterNd` node that overwrites and has three inputs, and the shape of its data is fixed and
/// its indices constant.
pub open spec fn is_not_planned<G: Graph>(g: G, id: usize, e: PlanError) -> bool {
    &&& call_ensures(G::kind, (&g, id), NodeKind::Scatter { reduces: false, inputs: 3 })
    &&& exists|shape: Vec<usize>, indices: Arc<tract_onnx::prelude::Tensor>|
        {
            &&& #[trigger] call_ensures(G::data_shape, (&g, id), Ok(Some(shape)))
            &&& #[trigger] call_ensures(G::indices, (&g, id), Ok(Some(indices)))
            &&& scatter::build_result_is(shape@, *indices, Err(e))
        }
}

/// The graphs follow each other as the nodes `ids`, in ascending order, are replaced by their plans.
pub open spec fn replaces_in_turn<G: Graph>(
    graph: G,
    graphs: Seq<G>,
    ids: Seq<usize>,
    plans: Seq<FastScatterConst>,
) -> bool {
    &&& graphs.len() == ids.len() + 1
    &&& plans.len() == ids.len()
    &&& graphs[0] == graph
    &&& forall|i: int, j: int| 0 <= i < j < ids.len() ==> #[trigger] ids[i] < #[trigger] ids[j]
    &&& forall|j: int|
        0 <= j < ids.len() ==> {
            &&& is_planned(graphs[j], #[trigger] ids[j], plans[j])
            &&& call_ensures(
                G::replaced,
                (graphs[j], ids[j], plans[j]),
                (graphs[j + 1], Ok(())),
            )
        }
}

/// How far the graph has come when the rewriting demands action `k`.
spec fn has_come_to<G: Graph>(
    graph: G,
    current: G,
    state: Rewriter,
    action: Action,
    graphs: Seq<G>,
    ids: Seq<usize>,
    plans: Seq<FastScatterConst>,
) -> bool {
    &&& replaces_in_turn(graph, graphs, ids, plans)
    &&& !(action is Fail) ==> {
        &&& ids.len() == state.count
        &&& forall|j: int| 0 <= j < ids.len() ==> #[trigger] ids[j] < state.id
    }
    &&& match action {
        Action::Inspect(id) => current == graphs.last() && id == state.id && state.phase
            is Inspecting,
        Action::ReadShape(id) => {
            &&& current == graphs.last()
            &&& id == state.id
            &&& state.phase is ReadingShape
            &&& call_ensures(
                G::kind,
                (&current, id),
                NodeKind::Scatter { reduces: false, inputs: 3 },
            )
        },
        Action::ReadIndices(id) => {
            &&& current == graphs.last()
            &&& id == state.id
            &&& state.phase is ReadingIndices
            &&& call_ensures(
                G::kind,
                (&current, id),
                NodeKind::Scatter { reduces: false, inputs: 3 },
            )
            &&& call_ensures(
                G::data_shape,
                (&current, id),
                Ok(Some(state.phase->ReadingIndices_0)),
            )
        },
        Action::Replace(id, plan) => {
            &&& current == graphs.last()
            &&& id == state.id
            &&& state.phase is Replacing
            &&& is_planned(current, id, plan)
        },
        Action::Declutter => {
            &&& current == graphs.last()
            &&& state.phase is Decluttering
            &&& state.count > 0
        },
        Action::Finish(count) => {
            &&& count == state.count
            &&& state.phase is Done
            &&& count == 0 ==> current == graph
            &&& count > 0 ==> call_ensures(G::decluttered, (graphs.last(),), (current, Ok(())))
        },
        Action::Fail(e) => {
            &&& current == graphs.last()
            &&& state.phase is Done
            &&& is_not_planned(current, state.id, e)
        },
    }
}

#[verifier::rlimit(60)]
#[verifier::spinoff_prover]
proof fn lemma_comes_to<G: Graph>(
    graph: G,
    graphs: Seq<G>,
    states: Seq<Rewriter>,
    events: Seq<Event>,
    actions: Seq<Action>,
    k: int,
) -> (p: (Seq<G>, Seq<usize>, Seq<FastScatterConst>))
    requires
        rewrite::under_way(graph, graphs, states, events, actions),
        0 <= k <= events.len(),
    ensures
        has_come_to(graph, graphs[k], states[k], actions[k], p.0, p.1, p.2),
    decreases k,
{
    if k == 0 {
        (seq![graph], Seq::empty(), Seq::empty())
    } else {
        let (gs, ids, plans) = lemma_comes_to(graph, graphs, states, events, actions, k - 1);
        assert(rewrite::carries_on(graphs, states, events, actions, k - 1));
        let g = graphs[k - 1];
        let after = graphs[k - 1 + 1];
        assert(rewrite::carries_out(g, actions[k - 1], events[k - 1], after));
        match (actions[k - 1], events[k - 1]) {
            (Action::Replace(id, plan), Event::Replaced) => {
                lemma_one_more_replaced(graph, gs, ids, plans, id, plan, after);
                (gs.push(after), ids.push(id), plans.push(plan))
            },
            (Action::ReadIndices(id), Event::Indices(Some(indices))) => {
                let shape = states[k - 1].phase->ReadingIndices_0;
                assert(call_ensures(G::data_shape, (&g, id), Ok(Some(shape))));
                assert(call_ensures(G::indices, (&g, id), Ok(Some(indices))));
                (gs, ids, plans)
            },
            _ => (gs, ids, plans),
        }
    }
}

proof fn lemma_one_more_replaced<G: Graph>(
    graph: G,
    gs: Seq<G>,
    ids: Seq<usize>,
    plans: Seq<FastScatterConst>,
    id: usize,
    plan: FastScatterConst,
    after: G,
)
    requires
        replaces_in_turn(graph, gs, ids, plans),
        forall|j: int| 0 <= j < ids.len() ==> #[trigger] ids[j] < id,
        is_planned(gs.last(), id, plan),
        call_ensures(G::replaced, (gs.last(), id, plan), (after, Ok(()))),
    ensures
        replaces_in_turn(graph, gs.push(after), ids.push(id), plans.push(plan)),
{
    let (gs2, ids2, plans2) = (gs.push(after), ids.push(id), plans.push(plan));
    assert forall|j: int| 0 <= j < ids2.len() implies {
        &&& is_planned(gs2[j], #[trigger] ids2[j], plans2[j])
        &&& call_ensures(G::replaced, (gs2[j], ids2[j], plans2[j]), (gs2[j + 1], Ok(())))
    } by {
        if j < ids.len() {
            assert(is_planned(gs[j], ids[j], plans[j]));
            assert(call_ensures(G::replaced, (gs[j], ids[j], plans[j]), (gs[j + 1], Ok(()))));
        }
    }
}

/// A rewriting that succeeds has replaced, one after the other and in ascending order, as many
/// nodes as it says, each by the plan for it, and has then cleaned the graph up; if there was none
/// to replace, the graph is as it was.
pub proof fn nodes_are_replaced_in_turn<G: Graph>(
    graph: G,
    r: (G, Result<usize, RewriteError<G::Error>>),
)
    requires
        call_ensures(rewrite::replace_const_scatternd::<G>, (graph,), r),
        r.1 is Ok,
    ensures
        exists|graphs: Seq<G>, ids: Seq<usize>, plans: Seq<FastScatterConst>|
            {
                &&& #[trigger] replaces_in_turn(graph, graphs, ids, plans)
                &&& ids.len() == r.1->Ok_0
                &&& ids.len() == 0 ==> r.0 == graph
                &&& ids.len() > 0 ==> call_ensures(
                    G::decluttered,
                    (graphs.last(),),
                    (r.0, Ok(())),
                )
            },
{
    assert(rewrite::rewrites(graph, r.0, r.1));
    let (graphs, states, events, actions) = choose|
        graphs: Seq<G>,
        states: Seq<Rewriter>,
        events: Seq<Event>,
        actions: Seq<Action>,
    |
        {
            &&& #[trigger] rewrite::under_way(graph, graphs, states, events, actions)
            &&& rewrite::ends(graphs.last(), actions.last(), r.0, r.1)
        };
    let n = events.len() as int;
    let (gs, ids, plans) = lemma_comes_to(graph, graphs, states, events, actions, n);
    assert(replaces_in_turn(graph, gs, ids, plans));
}

/// A rewriting fails on a node that there is no plan for, or because the graph does: nodes before
/// that are replaced in turn, and nothing is cleaned up unless that is what failed.
pub proof fn rewriting_fails_where_it_stands<G: Graph>(
    graph: G,
    r: (G, Result<usize, RewriteError<G::Error>>),
)
    requires
        call_ensures(rewrite::replace_const_scatternd::<G>, (graph,), r),
        r.1 is Err,
    ensures
        exists|graphs: Seq<G>, ids: Seq<usize>, plans: Seq<FastScatterConst>|
            {
                &&& #[trigger] replaces_in_turn(graph, graphs, ids, plans)
                &&& r.1->Err_0 matches RewriteError::Plan(e) ==> r.0 == graphs.last() && exists|
                    id: usize,
                | #[trigger]
                    is_not_planned(r.0, id, e)
                &&& r.1->Err_0 matches RewriteError::Graph(e) ==> {
                    ||| r.0 == graphs.last() && exists|id: usize| #[trigger]
                        call_ensures(G::data_shape, (&r.0, id), Err(e))
                    ||| r.0 == graphs.last() && exists|id: usize| #[trigger]
                        call_ensures(G::indices, (&r.0, id), Err(e))
                    ||| exists|id: usize, plan: FastScatterConst|
                        is_planned(graphs.last(), id, plan) && #[trigger] call_ensures(
                            G::replaced,
                            (graphs.last(), id, plan),
                            (r.0, Err(e)),
                        )
                    ||| call_ensures(G::decluttered, (graphs.last(),), (r.0, Err(e)))
                }
            },
{
    assert(rewrite::rewrites(graph, r.0, r.1));
    let (graphs, states, events, actions) = choose|
        graphs: Seq<G>,
        states: Seq<Rewriter>,
        events: Seq<Event>,
        actions: Seq<Action>,
    |
        {
            &&& #[trigger] rewrite::under_way(graph, graphs, states, events, actions)
            &&& rewrite::ends(graphs.last(), actions.last(), r.0, r.1)
        };
    let n = events.len() as int;
    let (gs, ids, plans) = lemma_comes_to(graph, graphs, states, events, actions, n);
    assert(replaces_in_turn(graph, gs, ids, plans));
    let g = graphs.last();
    if r.1->Err_0 is Plan {
        let e = r.1->Err_0->Plan_0;
        assert(is_not_planned(r.0, states.last().id, e));
    } else {
        let e = r.1->Err_0->Graph_0;
        assert(rewrite::carrying_out_fails(g, actions.last(), e, r.0));
        match actions.last() {
            Action::ReadShape(id) => {
                let reply = Err::<Option<Vec<usize>>, G::Error>(e);
                assert(call_ensures(G::data_shape, (&r.0, id), reply));
            },
            Action::ReadIndices(id) => {
                let reply = Err::<Option<Arc<tract_onnx::prelude::Tensor>>, G::Error>(e);
                assert(call_ensures(G::indices, (&r.0, id), reply));
            },
            Action::Replace(id, plan) => {
                let reply = (r.0, Err::<(), G::Error>(e));
                assert(is_planned(gs.last(), id, plan));
                assert(call_ensures(G::replaced, (gs.last(), id, plan), reply));
            },
            _ => {},
        }
    }
}

} // verus!
