//! Replacing the `ScatterNd` nodes of a model whose indices are constant.
//!
//! A [`Rewriter`] says what to look up or to change next, and is told what came of it. It goes
//! through the nodes that the model has at the start, in order; for each one that qualifies it
//! hands out a [`FastScatterConst`] to put in its place. [`replace_const_scatternd`] carries that
//! out on a [`Graph`].
use std::sync::Arc;
use vstd::prelude::*;

use crate::scatter;
use crate::scatter::{FastScatterConst, PlanError};

verus! {

/// What kind of node one is.
#[derive(Clone, Copy, Debug, PartialEq, Eq, Structural)]
pub enum NodeKind {
    /// A `ScatterNd` node.
    Scatter {
        /// Whether it combines updates with the data in any way but replacing it.
        reduces: bool,
        /// How many inputs it has.
        inputs: usize,
    },
    /// Any other node.
    Other,
}

/// What is to be done next with the model.
#[derive(Clone, Debug, PartialEq, Eq)]
pub enum Action {
    /// Tell which kind of node the one with this number is.
    Inspect(usize),
    /// Tell the shape of this node's first input, if it is fixed.
    ReadShape(usize),
    /// Tell the value of this node's second input, if it is constant.
    ReadIndices(usize),
    /// Replace this node by the plan, wired to the node's first and third input.
    Replace(usize, FastScatterConst),
    /// Clean the model up.
    Declutter,
    /// Nothing: as many nodes as given were replaced.
    Finish(usize),
    /// Nothing: a node's indices cannot be used.
    Fail(PlanError),
}

/// What came of an action.
pub enum Event {
    /// The node is of this kind.
    Node(NodeKind),
    /// The shape, if it is fixed.
    Shape(Option<Vec<usize>>),
    /// The indices, if they are constant.
    Indices(Option<Arc<tract_onnx::prelude::Tensor>>),
    /// The node has been replaced.
    Replaced,
    /// The model has been cleaned up.
    Decluttered,
}

/// What a rewriter waits to be told.
pub enum Phase {
    /// The kind of the current node.
    Inspecting,
    /// The shape of the current node's data.
    ReadingShape,
    /// The indices of the current node, whose data has this shape.
    ReadingIndices(Vec<usize>),
    /// That the current node has been replaced.
    Replacing,
    /// That the model has been cleaned up.
    Decluttering,
    /// Nothing any more.
    Done,
}

/// The progress of a rewriting.
pub struct Rewriter {
    /// How many nodes there are to go through.
    pub node_count: usize,
    /// The current node.
    pub id: usize,
    /// How many nodes have been replaced so far.
    pub count: usize,
    /// What is awaited.
    pub phase: Phase,
}

impl Rewriter {
    /// No more nodes have been replaced than gone through, one that is awaited exists, and the
    /// model is cleaned up only when all nodes have been gone through.
    pub open spec fn wf(&self) -> bool {
        &&& self.count <= self.id <= self.node_count
        &&& !(self.phase is Decluttering || self.phase is Done) ==> self.id < self.node_count
        &&& self.phase is Decluttering ==> self.id == self.node_count
    }

    /// The event is of the kind that is awaited.
    pub open spec fn awaits(&self, event: Event) -> bool {
        match self.phase {
            Phase::Inspecting => event is Node,
            Phase::ReadingShape => event is Shape,
            Phase::ReadingIndices(_) => event is Indices,
            Phase::Replacing => event is Replaced,
            Phase::Decluttering => event is Decluttered,
            Phase::Done => false,
        }
    }

    /// From here on it goes on with node `id`, with `count` nodes replaced: the node is inspected
    /// or, if there is none, the model is cleaned up, provided that anything was replaced.
    pub open spec fn goes_on(&self, id: int, count: int, next: Self, action: Action) -> bool {
        &&& next.node_count == self.node_count
        &&& next.id == id
        &&& next.count == count
        &&& if id < self.node_count {
            next.phase == Phase::Inspecting && action == Action::Inspect(id as usize)
        } else if count > 0 {
            next.phase == Phase::Decluttering && action == Action::Declutter
        } else {
            next.phase == Phase::Done && action == Action::Finish(0)
        }
    }

    /// It stays with the current node and waits as `phase` says.
    pub open spec fn stays(&self, phase: Phase, next: Self) -> bool {
        next == (Rewriter { node_count: self.node_count, id: self.id, count: self.count, phase })
    }

    /// After the event, the rewriting is in the state `next` and demands `action`.
    pub open spec fn step_is(&self, event: Event, next: Self, action: Action) -> bool {
        match (self.phase, event) {
            (Phase::Inspecting, Event::Node(kind)) => {
                if kind == (NodeKind::Scatter { reduces: false, inputs: 3 }) {
                    self.stays(Phase::ReadingShape, next) && action == Action::ReadShape(self.id)
                } else {
                    self.goes_on(self.id + 1, self.count as int, next, action)
                }
            },
            (Phase::ReadingShape, Event::Shape(Some(shape))) => {
                self.stays(Phase::ReadingIndices(shape), next) && action == Action::ReadIndices(
                    self.id,
                )
            },
            (Phase::ReadingShape, Event::Shape(None)) => {
                self.goes_on(self.id + 1, self.count as int, next, action)
            },
            (Phase::ReadingIndices(shape), Event::Indices(Some(indices))) => {
                match action {
                    Action::Replace(id, plan) => {
                        &&& id == self.id
                        &&& scatter::build_result_is(shape@, *indices, Ok(plan))
                        &&& self.stays(Phase::Replacing, next)
                    },
                    Action::Fail(error) => {
                        &&& scatter::build_result_is(shape@, *indices, Err(error))
                        &&& self.stays(Phase::Done, next)
                    },
                    _ => false,
                }
            },
            (Phase::ReadingIndices(_), Event::Indices(None)) => {
                self.goes_on(self.id + 1, self.count as int, next, action)
            },
            (Phase::Replacing, Event::Replaced) => {
                self.goes_on(self.id + 1, self.count + 1, next, action)
            },
            (Phase::Decluttering, Event::Decluttered) => {
                self.stays(Phase::Done, next) && action == Action::Finish(self.count)
            },
            _ => false,
        }
    }

    /// Goes on with the given node.
    fn go_on(&mut self, id: usize, count: usize) -> (action: Action)
        requires
            count <= id <= old(self).node_count,
        ensures
            old(self).goes_on(id as int, count as int, *final(self), action),
            final(self).wf(),
    {
        self.id = id;
        self.count = count;
        if id < self.node_count {
            self.phase = Phase::Inspecting;
            Action::Inspect(id)
        } else if count > 0 {
            self.phase = Phase::Decluttering;
            Action::Declutter
        } else {
            self.phase = Phase::Done;
            Action::Finish(0)
        }
    }

    /// Takes in what came of the last action and says what to do next.
    pub fn step(&mut self, event: Event) -> (action: Action)
        requires
            old(self).wf(),
            old(self).awaits(event),
        ensures
            old(self).step_is(event, *final(self), action),
            final(self).wf(),
    {
        let id: usize = self.id;
        let count: usize = self.count;
        match event {
            Event::Node(kind) => {
                match kind {
                    NodeKind::Scatter { reduces, inputs } => {
                        if reduces || inputs != 3 {
                            self.go_on(id + 1, count)
                        } else {
                            self.phase = Phase::ReadingShape;
                            Action::ReadShape(id)
                        }
                    },
                    NodeKind::Other => self.go_on(id + 1, count),
                }
            },
            Event::Shape(shape) => {
                match shape {
                    Some(shape) => {
                        self.phase = Phase::ReadingIndices(shape);
                        Action::ReadIndices(id)
                    },
                    None => self.go_on(id + 1, count),
                }
            },
            Event::Indices(indices) => {
                match indices {
                    Some(indices) => self.plan_current(indices),
                    None => self.go_on(id + 1, count),
                }
            },
            Event::Replaced => self.go_on(id + 1, count + 1),
            Event::Decluttered => {
                self.phase = Phase::Done;
                Action::Finish(count)
            },
        }
    }

    /// Plans the replacement of the current node.
    fn plan_current(&mut self, indices: Arc<tract_onnx::prelude::Tensor>) -> (action: Action)
        requires
            old(self).wf(),
            old(self).phase is ReadingIndices,
        ensures
            old(self).step_is(Event::Indices(Some(indices)), *final(self), action),
            final(self).wf(),
    {
        let result: Result<FastScatterConst, PlanError> = match &self.phase {
            Phase::ReadingIndices(shape) => scatter::build_plan(shape, &indices),
            _ => Err(PlanError::NoRank),
        };
        match result {
            Ok(plan) => {
                self.phase = Phase::Replacing;
                Action::Replace(self.id, plan)
            },
            Err(error) => {
                self.phase = Phase::Done;
                Action::Fail(error)
            },
        }
    }
}

/// In this state a rewriting demands this action.
pub open spec fn demands(r: Rewriter, action: Action) -> bool {
    match r.phase {
        Phase::Inspecting => action == Action::Inspect(r.id),
        Phase::ReadingShape => action == Action::ReadShape(r.id),
        Phase::ReadingIndices(_) => action == Action::ReadIndices(r.id),
        Phase::Replacing => action is Replace && action->Replace_0 == r.id,
        Phase::Decluttering => action == Action::Declutter,
        Phase::Done => action is Finish || action is Fail,
    }
}

/// A rewriting of a model of `node_count` nodes starts like this.
pub open spec fn starts(node_count: usize, r: Rewriter, action: Action) -> bool {
    (Rewriter { node_count, id: 0, count: 0, phase: Phase::Done }).goes_on(0, 0, r, action)
}

impl Rewriter {
    /// Starts replacing every `ScatterNd` node that only overwrites and whose indices are
    /// constant, in a model of `node_count` nodes.
    pub fn start(node_count: usize) -> (r: (Rewriter, Action))
        ensures
            r.0.wf(),
            starts(node_count, r.0, r.1),
    {
        let mut rewriter: Rewriter = Rewriter { node_count, id: 0, count: 0, phase: Phase::Done };
        let action: Action = rewriter.go_on(0, 0);
        (rewriter, action)
    }
}

// Runs.

/// How many steps the rewriting still takes at most.
pub open spec fn steps_left(r: Rewriter) -> int {
    5 * (r.node_count - r.id) + match r.phase {
        Phase::Inspecting => 4int,
        Phase::ReadingShape => 3int,
        Phase::ReadingIndices(_) => 2int,
        Phase::Replacing => 1int,
        Phase::Decluttering => 1int,
        Phase::Done => 0int,
    }
}

/// Every step brings the end closer: a rewriting comes to an end, whatever the model is like.
pub proof fn every_step_makes_progress(r: Rewriter, event: Event, next: Rewriter, action: Action)
    requires
        r.wf(),
        next.wf(),
        r.step_is(event, next, action),
    ensures
        0 <= steps_left(next) < steps_left(r),
{
}

/// How many of the first `n` events say that a node was replaced.
pub open spec fn replacements(events: Seq<Event>, n: int) -> int
    decreases n,
{
    if n <= 0 {
        0
    } else {
        replacements(events, n - 1) + if events[n - 1] is Replaced {
            1int
        } else {
            0int
        }
    }
}

/// The states `states` follow each other by the events `events`, with the actions `actions`.
pub open spec fn is_run(states: Seq<Rewriter>, events: Seq<Event>, actions: Seq<Action>) -> bool {
    &&& states.len() == events.len() + 1
    &&& actions.len() == events.len()
    &&& forall|i: int|
        0 <= i < events.len() ==> (#[trigger] states[i]).step_is(
            events[i],
            states[i + 1],
            actions[i],
        )
}

/// What a rewriting reports at the end is how many nodes were replaced.
pub proof fn replaced_nodes_are_counted(
    states: Seq<Rewriter>,
    events: Seq<Event>,
    actions: Seq<Action>,
    n: int,
)
    requires
        is_run(states, events, actions),
        states[0].count == 0,
        0 <= n <= events.len(),
    ensures
        states[n].count == replacements(events, n),
        n > 0 ==> match actions[n - 1] {
            Action::Finish(count) => count == replacements(events, n),
            _ => true,
        },
    decreases n,
{
    if n > 0 {
        replaced_nodes_are_counted(states, events, actions, n - 1);
        assert(states[n - 1].step_is(events[n - 1], states[n - 1 + 1], actions[n - 1]));
    }
}

/// A rewriting that comes to its end without a failure has inspected every node.
pub proof fn every_node_is_inspected(
    states: Seq<Rewriter>,
    events: Seq<Event>,
    actions: Seq<Action>,
    node: int,
)
    requires
        is_run(states, events, actions),
        forall|i: int| 0 <= i < states.len() ==> (#[trigger] states[i]).wf(),
        states[0].id == 0,
        states[0].phase == Phase::Inspecting,
        events.len() > 0,
        actions.last() is Finish,
        0 <= node < states[0].node_count,
    ensures
        exists|i: int|
            0 <= i < events.len() && (#[trigger] states[i]).phase == Phase::Inspecting
                && states[i].id == node,
{
    let n = events.len() as int;
    lemma_inspected_up_to(states, events, actions, n, node);
    assert(states[n - 1].step_is(events[n - 1], states[n - 1 + 1], actions[n - 1]));
}

/// Every node up to the current one has been inspected, or is about to be.
proof fn lemma_inspected_up_to(
    states: Seq<Rewriter>,
    events: Seq<Event>,
    actions: Seq<Action>,
    n: int,
    node: int,
)
    requires
        is_run(states, events, actions),
        forall|i: int| 0 <= i < states.len() ==> (#[trigger] states[i]).wf(),
        states[0].id == 0,
        states[0].phase == Phase::Inspecting,
        0 <= n <= events.len(),
        0 <= node < states[0].node_count,
    ensures
        states[n].node_count == states[0].node_count,
        node <= states[n].id ==> exists|i: int|
            0 <= i <= n && (#[trigger] states[i]).phase == Phase::Inspecting && states[i].id == node,
    decreases n,
{
    if n == 0 {
        assert(states[0].phase == Phase::Inspecting);
    } else {
        lemma_inspected_up_to(states, events, actions, n - 1, node);
        assert(states[n - 1].step_is(events[n - 1], states[n - 1 + 1], actions[n - 1]));
        assert(states[n].wf());
    }
}

// Carrying it out.

/// The graph of a model. What it says of its nodes, and what replacing one does to it, is its own
/// affair: the contracts here say what it is asked and what becomes of the replies.
pub trait Graph: Sized {
    /// Why the graph cannot be read or changed.
    type Error;

    /// How many nodes there are.
    fn node_count(&self) -> usize;

    /// The kind of a node.
    fn kind(&self, id: usize) -> NodeKind;

    /// The shape of a node's first input, if it is fixed.
    fn data_shape(&self, id: usize) -> Result<Option<Vec<usize>>, Self::Error>;

    /// The value of a node's second input, if it is constant.
    fn indices(&self, id: usize) -> Result<
        Option<Arc<tract_onnx::prelude::Tensor>>,
        Self::Error,
    >;

    /// The graph with a node replaced by the plan, wired to the node's first and third input.
    fn replaced(self, id: usize, plan: FastScatterConst) -> (Self, Result<(), Self::Error>);

    /// The graph cleaned up.
    fn decluttered(self) -> (Self, Result<(), Self::Error>);
}

/// Why a model could not be rewritten.
pub enum RewriteError<E> {
    /// The graph cannot be read or changed.
    Graph(E),
    /// A node's indices cannot be used.
    Plan(PlanError),
}

/// The action, carried out on `graph`, comes out as `event` and leaves `after`.
pub open spec fn carries_out<G: Graph>(graph: G, action: Action, event: Event, after: G) -> bool {
    match (action, event) {
        (Action::Inspect(id), Event::Node(kind)) => {
            after == graph && call_ensures(G::kind, (&graph, id), kind)
        },
        (Action::ReadShape(id), Event::Shape(shape)) => {
            after == graph && call_ensures(G::data_shape, (&graph, id), Ok(shape))
        },
        (Action::ReadIndices(id), Event::Indices(indices)) => {
            after == graph && call_ensures(G::indices, (&graph, id), Ok(indices))
        },
        (Action::Replace(id, plan), Event::Replaced) => {
            call_ensures(G::replaced, (graph, id, plan), (after, Ok(())))
        },
        (Action::Declutter, Event::Decluttered) => {
            call_ensures(G::decluttered, (graph,), (after, Ok(())))
        },
        _ => false,
    }
}

/// The action, carried out on `graph`, fails with the error `e` and leaves `after`.
pub open spec fn carrying_out_fails<G: Graph>(
    graph: G,
    action: Action,
    e: G::Error,
    after: G,
) -> bool {
    match action {
        Action::ReadShape(id) => after == graph && call_ensures(
            G::data_shape,
            (&graph, id),
            Err(e),
        ),
        Action::ReadIndices(id) => after == graph && call_ensures(
            G::indices,
            (&graph, id),
            Err(e),
        ),
        Action::Replace(id, plan) => call_ensures(
            G::replaced,
            (graph, id, plan),
            (after, Err(e)),
        ),
        Action::Declutter => call_ensures(G::decluttered, (graph,), (after, Err(e))),
        _ => false,
    }
}

/// Action `i` is carried out, and what came of it leads to action `i + 1`.
pub open spec fn carries_on<G: Graph>(
    graphs: Seq<G>,
    states: Seq<Rewriter>,
    events: Seq<Event>,
    actions: Seq<Action>,
    i: int,
) -> bool {
    &&& carries_out(graphs[i], actions[i], events[i], graphs[i + 1])
    &&& states[i].step_is(events[i], states[i + 1], actions[i + 1])
}

/// A rewriting under way: it started on `graph`, and every action that it demanded, the last of
/// `actions` excepted, was carried out.
pub open spec fn under_way<G: Graph>(
    graph: G,
    graphs: Seq<G>,
    states: Seq<Rewriter>,
    events: Seq<Event>,
    actions: Seq<Action>,
) -> bool {
    &&& graphs.len() == events.len() + 1
    &&& states.len() == events.len() + 1
    &&& actions.len() == events.len() + 1
    &&& graphs[0] == graph
    &&& exists|node_count: usize| #[trigger]
        call_ensures(G::node_count, (&graph,), node_count) && starts(
            node_count,
            states[0],
            actions[0],
        )
    &&& forall|i: int|
        0 <= i < events.len() ==> #[trigger] carries_on(graphs, states, events, actions, i)
}

/// A rewriting that demands `action` of `graph` ends there, leaving `after`: it is finished, it came
/// upon indices that cannot be used, or the graph fails.
pub open spec fn ends<G: Graph>(
    graph: G,
    action: Action,
    after: G,
    r: Result<usize, RewriteError<G::Error>>,
) -> bool {
    match r {
        Ok(count) => action == Action::Finish(count) && after == graph,
        Err(RewriteError::Plan(e)) => action == Action::Fail(e) && after == graph,
        Err(RewriteError::Graph(e)) => carrying_out_fails(graph, action, e, after),
    }
}

/// A rewriting of `graph` ends with the graph as `after` and the outcome `r`.
pub open spec fn rewrites<G: Graph>(
    graph: G,
    after: G,
    r: Result<usize, RewriteError<G::Error>>,
) -> bool {
    exists|graphs: Seq<G>, states: Seq<Rewriter>, events: Seq<Event>, actions: Seq<Action>|
        {
            &&& #[trigger] under_way(graph, graphs, states, events, actions)
            &&& ends(graphs.last(), actions.last(), after, r)
        }
}

/// Carries out an action, and says what came of it, or with which outcome it ends the rewriting.
fn carry_out<G: Graph>(graph: G, action: Action) -> (r: (
    G,
    Result<Event, Result<usize, RewriteError<G::Error>>>,
))
    ensures
        r.1 matches Ok(event) ==> carries_out(graph, action, event, r.0),
        r.1 matches Err(outcome) ==> ends(graph, action, r.0, outcome),
{
    match action {
        Action::Inspect(id) => {
            let kind: NodeKind = graph.kind(id);
            (graph, Ok(Event::Node(kind)))
        },
        Action::ReadShape(id) => match graph.data_shape(id) {
            Ok(shape) => (graph, Ok(Event::Shape(shape))),
            Err(e) => (graph, Err(Err(RewriteError::Graph(e)))),
        },
        Action::ReadIndices(id) => match graph.indices(id) {
            Ok(indices) => (graph, Ok(Event::Indices(indices))),
            Err(e) => (graph, Err(Err(RewriteError::Graph(e)))),
        },
        Action::Replace(id, plan) => {
            let (after, done): (G, Result<(), G::Error>) = graph.replaced(id, plan);
            match done {
                Ok(unit) => {
                    assert(unit == ());
                    (after, Ok(Event::Replaced))
                },
                Err(e) => (after, Err(Err(RewriteError::Graph(e)))),
            }
        },
        Action::Declutter => {
            let (after, done): (G, Result<(), G::Error>) = graph.decluttered();
            match done {
                Ok(unit) => {
                    assert(unit == ());
                    (after, Ok(Event::Decluttered))
                },
                Err(e) => (after, Err(Err(RewriteError::Graph(e)))),
            }
        },
        Action::Finish(count) => (graph, Err(Ok(count))),
        Action::Fail(e) => (graph, Err(Err(RewriteError::Plan(e)))),
    }
}

/// One more action is carried out.
proof fn lemma_one_more<G: Graph>(
    graph: G,
    graphs: Seq<G>,
    states: Seq<Rewriter>,
    events: Seq<Event>,
    actions: Seq<Action>,
    event: Event,
    after: G,
    state: Rewriter,
    action: Action,
)
    requires
        under_way(graph, graphs, states, events, actions),
        carries_out(graphs.last(), actions.last(), event, after),
        states.last().step_is(event, state, action),
    ensures
        under_way(
            graph,
            graphs.push(after),
            states.push(state),
            events.push(event),
            actions.push(action),
        ),
{
    let n = events.len() as int;
    let graphs2 = graphs.push(after);
    let states2 = states.push(state);
    let events2 = events.push(event);
    let actions2 = actions.push(action);
    assert forall|i: int| 0 <= i < events2.len() implies #[trigger] carries_on(
        graphs2,
        states2,
        events2,
        actions2,
        i,
    ) by {
        if i < n {
            assert(carries_on(graphs, states, events, actions, i));
        }
    }
    assert(states2[0] == states[0] && actions2[0] == actions[0] && graphs2[0] == graphs[0]);
}

/// Replaces every `ScatterNd` node of the graph that only overwrites and whose indices are
/// constant. Gives back the graph, and how many nodes were replaced.
pub fn replace_const_scatternd<G: Graph>(graph: G) -> (r: (
    G,
    Result<usize, RewriteError<G::Error>>,
))
    ensures
        rewrites(graph, r.0, r.1),
{
    let node_count: usize = graph.node_count();
    let (mut rewriter, mut action): (Rewriter, Action) = Rewriter::start(node_count);
    let mut current: G = graph;
    let ghost mut graphs: Seq<G> = seq![graph];
    let ghost mut states: Seq<Rewriter> = seq![rewriter];
    let ghost mut events: Seq<Event> = Seq::empty();
    let ghost mut actions: Seq<Action> = seq![action];
    assert(under_way(graph, graphs, states, events, actions));
    loop
        invariant
            rewriter.wf(),
            demands(rewriter, action),
            under_way(graph, graphs, states, events, actions),
            graphs.last() == current,
            states.last() == rewriter,
            actions.last() == action,
        decreases steps_left(rewriter),
    {
        let (after, told): (
            G,
            Result<Event, Result<usize, RewriteError<G::Error>>>,
        ) = carry_out(current, action);
        current = after;
        match told {
            Ok(event) => {
                let ghost before = rewriter;
                action = rewriter.step(event);
                proof {
                    every_step_makes_progress(before, event, rewriter, action);
                    lemma_one_more(
                        graph,
                        graphs,
                        states,
                        events,
                        actions,
                        event,
                        current,
                        rewriter,
                        action,
                    );
                    graphs = graphs.push(current);
                    states = states.push(rewriter);
                    events = events.push(event);
                    actions = actions.push(action);
                }
            },
            Err(outcome) => {
                return (current, outcome);
            },
        }
    }
}

/// Every state of a rewriting under way is sound, and demands the action of its place.
proof fn lemma_sound_under_way<G: Graph>(
    graph: G,
    graphs: Seq<G>,
    states: Seq<Rewriter>,
    events: Seq<Event>,
    actions: Seq<Action>,
    k: int,
)
    requires
        under_way(graph, graphs, states, events, actions),
        0 <= k <= events.len(),
    ensures
        states[k].wf(),
        demands(states[k], actions[k]),
        states[k].node_count == states[0].node_count,
    decreases k,
{
    if k > 0 {
        lemma_sound_under_way(graph, graphs, states, events, actions, k - 1);
        assert(carries_on(graphs, states, events, actions, k - 1));
    }
}

/// A rewriting that finishes reports how many nodes it replaced, and has inspected every node that
/// the graph had at the start.
pub proof fn finished_rewriting_left_nothing_out<G: Graph>(
    graph: G,
    graphs: Seq<G>,
    states: Seq<Rewriter>,
    events: Seq<Event>,
    actions: Seq<Action>,
    after: G,
    count: usize,
    node: usize,
)
    requires
        under_way(graph, graphs, states, events, actions),
        ends(graphs.last(), actions.last(), after, Ok(count)),
    ensures
        count == replacements(events, events.len() as int),
        node < states[0].node_count ==> exists|i: int|
            0 <= i < actions.len() && #[trigger] actions[i] == Action::Inspect(node),
{
    let n = events.len() as int;
    let told = actions.drop_first();
    assert forall|i: int| 0 <= i < n implies (#[trigger] states[i]).step_is(
        events[i],
        states[i + 1],
        told[i],
    ) by {
        assert(carries_on(graphs, states, events, actions, i));
    }
    assert(is_run(states, events, told));
    assert forall|i: int| 0 <= i < states.len() implies (#[trigger] states[i]).wf() by {
        lemma_sound_under_way(graph, graphs, states, events, actions, i);
    }
    if n > 0 {
        assert(told.last() == actions.last());
        replaced_nodes_are_counted(states, events, told, n);
        if node < states[0].node_count {
            every_node_is_inspected(states, events, told, node as int);
            let i = choose|i: int|
                0 <= i < events.len() && (#[trigger] states[i]).phase == Phase::Inspecting
                    && states[i].id == node;
            lemma_sound_under_way(graph, graphs, states, events, actions, i);
            assert(actions[i] == Action::Inspect(node));
        }
    }
}

} // verus!
