use crate::action::{clones_equal, Action};
use crate::goal::Goal;
use pathfinding::prelude::astar;
use std::hash::Hash;
use vstd::prelude::*;

verus! {

// ---------------------------------------------------------------------------
// Runs: sequences of actions taken one after another from a state.
// ---------------------------------------------------------------------------

/// Each action of `steps` is applicable in the state that the ones before it lead to.
pub open spec fn is_run<S: Clone + Hash + Eq, A: Action<S>>(state: S, steps: Seq<A>) -> bool
    decreases steps.len(),
{
    steps.len() == 0 || (steps[0].applicable(state) && is_run(
        steps[0].successor(state),
        steps.drop_first(),
    ))
}

/// The state reached by taking `steps` from `state`.
pub open spec fn run_end<S: Clone + Hash + Eq, A: Action<S>>(state: S, steps: Seq<A>) -> S
    decreases steps.len(),
{
    if steps.len() == 0 {
        state
    } else {
        run_end(steps[0].successor(state), steps.drop_first())
    }
}

/// The total cost of taking `steps` from `state`: each action's cost in the state it is taken in.
pub open spec fn run_cost<S: Clone + Hash + Eq, A: Action<S>>(state: S, steps: Seq<A>) -> int
    decreases steps.len(),
{
    if steps.len() == 0 {
        0
    } else {
        steps[0].step_cost(state) + run_cost(steps[0].successor(state), steps.drop_first())
    }
}

/// Every action of `steps` is one of `actions`.
pub open spec fn drawn_from<A>(actions: Seq<A>, steps: Seq<A>) -> bool {
    forall|i: int| 0 <= i < steps.len() ==> actions.contains(#[trigger] steps[i])
}

/// `steps` is a plan for `goal`: actions of the collection, applicable in turn,
/// ending in a state that satisfies the goal.
pub open spec fn reaches<S: Clone + Hash + Eq, A: Action<S>, G: Goal<S>>(
    state: S,
    actions: Seq<A>,
    goal: G,
    steps: Seq<A>,
) -> bool {
    &&& drawn_from(actions, steps)
    &&& is_run(state, steps)
    &&& goal.satisfied(run_end(state, steps))
}

/// Some plan for `goal` exists from `state`.
pub open spec fn reachable<S: Clone + Hash + Eq, A: Action<S>, G: Goal<S>>(
    state: S,
    actions: Seq<A>,
    goal: G,
) -> bool {
    exists|steps: Seq<A>| reaches(state, actions, goal, steps)
}

/// No plan for `goal` from `state` costs less than `cost`.
pub open spec fn cheapest<S: Clone + Hash + Eq, A: Action<S>, G: Goal<S>>(
    state: S,
    actions: Seq<A>,
    goal: G,
    cost: int,
) -> bool {
    forall|steps: Seq<A>| #[trigger] reaches(state, actions, goal, steps) ==> cost <= run_cost(state, steps)
}

/// The goal's heuristic never overestimates: from every state that a run of
/// the actions reaches, it is at most the cost of every plan from there.
pub open spec fn admissible<S: Clone + Hash + Eq, A: Action<S>, G: Goal<S>>(
    state: S,
    actions: Seq<A>,
    goal: G,
) -> bool {
    forall|before: Seq<A>, after: Seq<A>|
        drawn_from(actions, before) && is_run(state, before) && #[trigger] reaches(
            run_end(state, before),
            actions,
            goal,
            after,
        ) ==> goal.estimate(run_end(state, before)) <= run_cost(run_end(state, before), after)
}

// ---------------------------------------------------------------------------
// Conditions under which a search is well defined.
// ---------------------------------------------------------------------------

/// `==`, hashing and cloning of `S` treat states as plain values.
pub open spec fn value_semantics<S: Clone + Hash + Eq>() -> bool {
    &&& vstd::laws_eq::obeys_concrete_eq::<S>()
    &&& vstd::std_specs::hash::obeys_key_model::<S>()
    &&& clones_equal::<S>()
}

/// Taking any applicable action of `actions` from a state of `states` leads to a state of `states`.
pub open spec fn closed_under<S: Clone + Hash + Eq, A: Action<S>>(
    actions: Seq<A>,
    states: Set<S>,
) -> bool {
    forall|s: S, i: int|
        #![trigger states.contains(s), actions[i]]
        states.contains(s) && 0 <= i < actions.len() && actions[i].applicable(s) ==> states.contains(
            actions[i].successor(s),
        )
}

/// Within `states`, every applicable action costs between 0 and `k`, and the
/// heuristic lies between 0 and `k`.
pub open spec fn bounded_by<S: Clone + Hash + Eq, A: Action<S>, G: Goal<S>>(
    actions: Seq<A>,
    goal: G,
    states: Set<S>,
    k: int,
) -> bool {
    &&& forall|s: S, i: int|
        #![trigger states.contains(s), actions[i]]
        states.contains(s) && 0 <= i < actions.len() && actions[i].applicable(s) ==> 0
            <= actions[i].step_cost(s) <= k
    &&& forall|s: S| #[trigger] states.contains(s) ==> 0 <= goal.estimate(s) <= k
}

/// The states reachable from `state` form a finite set on which costs and the
/// heuristic are non-negative, and small enough that no cost along a path
/// without repeated search nodes exceeds the range of `i32`.
pub open spec fn search_fits<S: Clone + Hash + Eq, A: Action<S>, G: Goal<S>>(
    state: S,
    actions: Seq<A>,
    goal: G,
) -> bool {
    exists|states: Set<S>, k: int|
        #![trigger bounded_by(actions, goal, states, k)]
        states.finite() && states.contains(state) && closed_under(actions, states) && bounded_by(
            actions,
            goal,
            states,
            k,
        ) && k * (states.len() * (actions.len() + 1) + 1) <= i32::MAX
}

// ---------------------------------------------------------------------------
// Search nodes.
// ---------------------------------------------------------------------------

/// A node of the search graph: a state, and the index of the action that led
/// to it (none for the start node).
#[derive(PartialEq, Eq, Hash, Clone)]
pub struct PlanNode<S> {
    pub state: S,
    pub action: Option<usize>,
}

/// `next` is reached from `node` by taking an applicable action of `actions`,
/// whose index `next` records.
pub open spec fn is_edge<S: Clone + Hash + Eq, A: Action<S>>(
    actions: Seq<A>,
    node: PlanNode<S>,
    next: PlanNode<S>,
) -> bool {
    &&& next.action is Some
    &&& (next.action->0 as int) < actions.len()
    &&& actions[next.action->0 as int].applicable(node.state)
    &&& next.state == actions[next.action->0 as int].successor(node.state)
}

/// Each node of `path` after the first is reached from the one before it.
pub open spec fn is_node_path<S: Clone + Hash + Eq, A: Action<S>>(
    actions: Seq<A>,
    path: Seq<PlanNode<S>>,
) -> bool {
    forall|i: int| 0 <= i < path.len() - 1 ==> #[trigger] is_edge(actions, path[i], path[i + 1])
}

/// The actions that the nodes of `path` after the first record.
pub open spec fn path_steps<S: Clone + Hash + Eq, A: Action<S>>(
    actions: Seq<A>,
    path: Seq<PlanNode<S>>,
) -> Seq<A> {
    Seq::new((path.len() - 1) as nat, |k: int| actions[path[k + 1].action->0 as int])
}

/// The sum of the costs of the edges of `path`.
pub open spec fn path_cost<S: Clone + Hash + Eq, A: Action<S>>(
    actions: Seq<A>,
    path: Seq<PlanNode<S>>,
) -> int
    decreases path.len(),
{
    if path.len() < 2 {
        0
    } else {
        actions[path[1].action->0 as int].step_cost(path[0].state) + path_cost(
            actions,
            path.drop_first(),
        )
    }
}

/// The successors of a node in `state` through the first `n` actions, in
/// their order, each with the cost of the edge to it.
pub open spec fn successors<S: Clone + Hash + Eq, A: Action<S>>(
    state: S,
    actions: Seq<A>,
    n: int,
) -> Seq<(PlanNode<S>, i32)>
    decreases n,
{
    if n <= 0 {
        Seq::empty()
    } else {
        let rest = successors(state, actions, n - 1);
        let a = actions[n - 1];
        if a.applicable(state) {
            rest.push(
                (PlanNode { state: a.successor(state), action: Some((n - 1) as usize) }, a.step_cost(state) as i32),
            )
        } else {
            rest
        }
    }
}

impl<S: Clone + Hash + Eq> PlanNode<S> {
    /// Returns the node reached by applying the action at `index`.
    fn child<A: Action<S>>(&self, actions: &Vec<A>, index: usize) -> (r: PlanNode<S>)
        requires
            index < actions.len(),
            actions@[index as int].applicable(self.state),
            clones_equal::<S>(),
        ensures
            r == (PlanNode { state: actions@[index as int].successor(self.state), action: Some(index) }),
    {
        PlanNode { state: actions[index].apply(&self.state), action: Some(index) }
    }

    /// Returns every node reached by one applicable action, in the order of
    /// `actions`, each with the action's cost.
    pub fn children<A: Action<S>>(&self, actions: &Vec<A>) -> (r: Vec<(PlanNode<S>, i32)>)
        requires
            clones_equal::<S>(),
        ensures
            r@ == successors(self.state, actions@, actions@.len() as int),
    {
        let mut r: Vec<(PlanNode<S>, i32)> = Vec::new();
        let mut i: usize = 0;
        while i < actions.len()
            invariant
                i <= actions.len(),
                clones_equal::<S>(),
                r@ == successors(self.state, actions@, i as int),
            decreases actions.len() - i,
        {
            if actions[i].is_applicable(&self.state) {
                let cost = actions[i].cost(&self.state);
                r.push((self.child(actions, i), cost));
            }
            i = i + 1;
        }
        r
    }
}

// ---------------------------------------------------------------------------
// The search.
// ---------------------------------------------------------------------------

/// Relies on `pathfinding::directed::astar::astar` on the graph whose edges
/// `PlanNode::children` lists: the path it returns starts at `start`, follows
/// edges and ends at a node whose state satisfies the goal (a start that does
/// so is the whole path, at cost 0); the cost it reports is at least the sum of
/// the path's edges, and equals it and is the least of all plans when the
/// heuristic never overestimates (otherwise a node can be reported at a cost
/// recorded before a cheaper way to one of its ancestors was found); `None` comes
/// only when no node that satisfies the goal is reachable. It terminates and
/// its `i32` sums do not overflow on a finite, bounded graph with consistent
/// `==` and hashing.
#[verifier::external_body]
fn astar_search<S: Clone + Hash + Eq, A: Action<S>, G: Goal<S>>(
    start: &PlanNode<S>,
    actions: &Vec<A>,
    goal: &G,
) -> (r: Option<(Vec<PlanNode<S>>, i32)>)
    requires
        value_semantics::<S>(),
        search_fits(start.state, actions@, *goal),
    ensures
        match r {
            Some((path, cost)) => {
                &&& path@.len() >= 1
                &&& path@[0] == *start
                &&& is_node_path(actions@, path@)
                &&& goal.satisfied(path@.last().state)
                &&& path_cost(actions@, path@) <= cost
                &&& admissible(start.state, actions@, *goal) ==> cost == path_cost(actions@, path@)
                    && cheapest(start.state, actions@, *goal, cost as int)
                &&& goal.satisfied(start.state) ==> path@ == seq![*start] && cost == 0
            },
            None => !reachable(start.state, actions@, *goal),
        },
{
    astar(
        start,
        |node: &PlanNode<S>| node.children(actions),
        |node: &PlanNode<S>| goal.heuristic(&node.state),
        |node: &PlanNode<S>| goal.is_satisfied(&node.state),
    )
}

/// The actions recorded along a path of search nodes form a run from its
/// first state to its last, drawn from the collection, costing what the path costs.
proof fn lemma_path_is_run<S: Clone + Hash + Eq, A: Action<S>>(
    actions: Seq<A>,
    path: Seq<PlanNode<S>>,
)
    requires
        path.len() >= 1,
        is_node_path(actions, path),
    ensures
        drawn_from(actions, path_steps(actions, path)),
        is_run(path[0].state, path_steps(actions, path)),
        run_end(path[0].state, path_steps(actions, path)) == path.last().state,
        run_cost(path[0].state, path_steps(actions, path)) == path_cost(actions, path),
    decreases path.len(),
{
    let steps = path_steps(actions, path);
    assert forall|i: int| 0 <= i < steps.len() implies actions.contains(#[trigger] steps[i]) by {
        assert(is_edge(actions, path[i], path[i + 1]));
    }
    if path.len() >= 2 {
        let rest = path.drop_first();
        assert forall|i: int| 0 <= i < rest.len() - 1 implies #[trigger] is_edge(
            actions,
            rest[i],
            rest[i + 1],
        ) by {
            let k = i + 1;
            assert(is_edge(actions, path[k], path[k + 1]));
            assert(rest[i] == path[k] && rest[i + 1] == path[k + 1]);
        }
        lemma_path_is_run(actions, rest);
        assert(is_edge(actions, path[0], path[1]));
        assert(steps.drop_first() =~= path_steps(actions, rest));
    }
}

/// With no actions, a goal that the state does not already satisfy cannot be
/// reached, so `plan` returns `None`.
pub proof fn lemma_no_actions_unreachable<S: Clone + Hash + Eq, A: Action<S>, G: Goal<S>>(
    state: S,
    actions: Seq<A>,
    goal: G,
)
    requires
        actions.len() == 0,
        !goal.satisfied(state),
    ensures
        !reachable(state, actions, goal),
{
    assert forall|steps: Seq<A>| !reaches(state, actions, goal, steps) by {
        if steps.len() > 0 {
            assert(!actions.contains(steps[0]));
        }
    }
}

/// Two costs that are each achieved by a plan and each no greater than any
/// plan's cost are equal.
pub proof fn lemma_cheapest_unique<S: Clone + Hash + Eq, A: Action<S>, G: Goal<S>>(
    state: S,
    actions: Seq<A>,
    goal: G,
    steps1: Seq<A>,
    steps2: Seq<A>,
)
    requires
        reaches(state, actions, goal, steps1),
        reaches(state, actions, goal, steps2),
        cheapest(state, actions, goal, run_cost(state, steps1)),
        cheapest(state, actions, goal, run_cost(state, steps2)),
    ensures
        run_cost(state, steps1) == run_cost(state, steps2),
{
}

/// Returns a cheapest sequence of actions that leads from `initial_state` to a
/// state satisfying `goal`, with its total cost, or `None` when there is none.
///
/// An already satisfied goal gives the empty sequence at cost 0. When the
/// goal's heuristic never overestimates, the cost is the sum of the costs of
/// the actions, each in the state it is taken in, and no plan costs less;
/// otherwise it is at least that sum.
pub fn plan<S, A, G>(initial_state: &S, actions: &Vec<A>, goal: &G) -> (r: Option<(Vec<A>, i32)>)
    where
        S: Clone + Hash + Eq,
        A: Action<S> + Eq + Clone + Hash,
        G: Goal<S> + Clone,
    requires
        value_semantics::<S>(),
        clones_equal::<A>(),
        search_fits(*initial_state, actions@, *goal),
    ensures
        r is Some <==> reachable(*initial_state, actions@, *goal),
        r matches Some((steps, cost)) ==> {
            &&& reaches(*initial_state, actions@, *goal, steps@)
            &&& run_cost(*initial_state, steps@) <= cost
            &&& admissible(*initial_state, actions@, *goal) ==> cost == run_cost(
                *initial_state,
                steps@,
            ) && cheapest(*initial_state, actions@, *goal, cost as int)
        },
        goal.satisfied(*initial_state) ==> (r matches Some((steps, cost)) && steps@.len() == 0
            && cost == 0),
{
    let initial = PlanNode { state: initial_state.clone(), action: None };
    proof {
        if goal.satisfied(*initial_state) {
            assert(reaches(*initial_state, actions@, *goal, Seq::empty()));
        }
    }
    match astar_search(&initial, actions, goal) {
        None => None,
        Some((path, cost)) => {
            let mut steps: Vec<A> = Vec::new();
            let mut i: usize = 1;
            while i < path.len()
                invariant
                    1 <= i <= path@.len(),
                    is_node_path(actions@, path@),
                    clones_equal::<A>(),
                    steps@ =~= path_steps(actions@, path@.subrange(0, i as int)),
                decreases path.len() - i,
            {
                let ghost j = i - 1;
                assert(is_edge(actions@, path@[j], path@[j + 1]));
                let index = match path[i].action {
                    Some(index) => index,
                    None => 0,
                };
                steps.push(actions[index].clone());
                i = i + 1;
            }
            proof {
                assert(path@.subrange(0, path@.len() as int) =~= path@);
                lemma_path_is_run(actions@, path@);
                assert(reaches(*initial_state, actions@, *goal, steps@));
                if goal.satisfied(*initial_state) {
                    assert(steps@.len() == 0);
                }
            }
            Some((steps, cost))
        },
    }
}

} // verus!
