use crate::action::{clones_equal, Action};
use crate::goal::Goal;
use crate::order::{
    is_rank_order, lemma_rank_order_of_ranked, lemma_rank_order_unique, lists, rank_order, ranks_before,
};
use crate::plan::{
    admissible, cheapest, lemma_cheapest_unique, plan, reachable, reaches, run_cost, search_fits,
    value_semantics,
};
use std::hash::Hash;
use vstd::prelude::*;

verus! {

/// The priorities of `goals` in `state`.
pub open spec fn goal_ranks<S: Clone + Hash + Eq, G: Goal<S>>(state: S, goals: Seq<G>) -> Seq<int> {
    goals.map_values(|g: G| g.rank(state))
}

/// `sorted` holds the goals of `goals` by descending priority in `state`,
/// goals of equal priority in their order in `goals`.
pub open spec fn ranked<S: Clone + Hash + Eq, G: Goal<S>>(
    state: S,
    goals: Seq<G>,
    sorted: Seq<G>,
) -> bool {
    exists|order: Seq<usize>|
        #[trigger] is_rank_order(goal_ranks(state, goals), order) && sorted == order.map_values(
            |x: usize| goals[x as int],
        )
}

/// `steps` is a plan for `goal` and `cost` is what `plan` reports for it: its
/// exact cost, and the least of all plans, when the goal's heuristic never
/// overestimates.
pub open spec fn is_plan_for<S: Clone + Hash + Eq, A: Action<S>, G: Goal<S>>(
    state: S,
    actions: Seq<A>,
    goal: G,
    steps: Seq<A>,
    cost: int,
) -> bool {
    &&& reaches(state, actions, goal, steps)
    &&& run_cost(state, steps) <= cost
    &&& admissible(state, actions, goal) ==> cost == run_cost(state, steps) && cheapest(
        state,
        actions,
        goal,
        cost,
    )
}

/// A chosen goal with its plan and the plan's cost, as plain values.
pub open spec fn choice_view<G, A>(r: Option<(&G, Vec<A>, i32)>) -> Option<(G, Seq<A>, int)> {
    match r {
        Some((goal, steps, cost)) => Some((*goal, steps@, cost as int)),
        None => None,
    }
}

/// `r` is the first goal of `goals` that can be reached, with a plan for it;
/// `None` when no goal can be reached.
pub open spec fn first_choice<S: Clone + Hash + Eq, A: Action<S>, G: Goal<S>>(
    state: S,
    actions: Seq<A>,
    goals: Seq<G>,
    r: Option<(G, Seq<A>, int)>,
) -> bool {
    match r {
        None => forall|i: int| 0 <= i < goals.len() ==> !reachable(state, actions, #[trigger] goals[i]),
        Some((goal, steps, cost)) => exists|i: int|
            #![trigger goals[i]]
            {
                &&& 0 <= i < goals.len()
                &&& goal == goals[i]
                &&& forall|j: int| 0 <= j < i ==> !reachable(state, actions, #[trigger] goals[j])
                &&& is_plan_for(state, actions, goal, steps, cost)
            },
    }
}

/// The entries of `r` are the goals of `goals` at the increasing positions
/// `at`, which are all the goals that can be reached, each with a plan for it.
pub open spec fn choices_at<S: Clone + Hash + Eq, A: Action<S>, G: Goal<S>>(
    state: S,
    actions: Seq<A>,
    goals: Seq<G>,
    r: Seq<(G, Seq<A>, int)>,
    at: Seq<int>,
) -> bool {
    &&& at.len() == r.len()
    &&& forall|k: int, l: int| 0 <= k < l < at.len() ==> #[trigger] at[k] < #[trigger] at[l]
    &&& forall|k: int|
        #![trigger r[k]]
        0 <= k < r.len() ==> {
            &&& 0 <= at[k] < goals.len()
            &&& r[k].0 == goals[at[k]]
            &&& is_plan_for(state, actions, r[k].0, r[k].1, r[k].2)
        }
    &&& forall|i: int|
        0 <= i < goals.len() && reachable(state, actions, #[trigger] goals[i]) ==> exists|k: int|
            0 <= k < at.len() && at[k] == i
}

/// The entries of `r` are the goals of `goals` that can be reached, in their
/// order, each with a plan for it.
pub open spec fn all_choices<S: Clone + Hash + Eq, A: Action<S>, G: Goal<S>>(
    state: S,
    actions: Seq<A>,
    goals: Seq<G>,
    r: Seq<(G, Seq<A>, int)>,
) -> bool {
    exists|at: Seq<int>| #[trigger] choices_at(state, actions, goals, r, at)
}

/// The entries of a list returned by `Agent::plan_all`, as plain values.
pub open spec fn entries_view<G, A>(r: Seq<(&G, Vec<A>, i32)>) -> Seq<(G, Seq<A>, int)> {
    r.map_values(|e: (&G, Vec<A>, i32)| (*e.0, e.1@, e.2 as int))
}

/// What a goal is worth once its plan is paid for.
pub open spec fn profit<S: Clone + Hash + Eq, G: Goal<S>>(state: S, goal: G, cost: int) -> int {
    goal.rank(state) - cost
}

/// `r` is the entry of `entries` of greatest profit, the first of them when
/// several tie; `None` when there are no entries.
pub open spec fn best_entry<S: Clone + Hash + Eq, A, G: Goal<S>>(
    state: S,
    entries: Seq<(G, Seq<A>, int)>,
    r: Option<(G, Seq<A>, int)>,
) -> bool {
    match r {
        None => entries.len() == 0,
        Some(e) => exists|j: int|
            #![trigger entries[j]]
            {
                &&& 0 <= j < entries.len()
                &&& e == entries[j]
                &&& forall|k: int|
                    #![trigger entries[k]]
                    0 <= k < entries.len() ==> profit(state, entries[k].0, entries[k].2) <= profit(
                        state,
                        e.0,
                        e.2,
                    )
                &&& forall|k: int|
                    #![trigger entries[k]]
                    0 <= k < j ==> profit(state, entries[k].0, entries[k].2) < profit(state, e.0, e.2)
            },
    }
}

/// Returns the entry of greatest profit (priority in `state` minus cost),
/// the first of them when several tie; `None` when `entries` is empty.
pub fn most_profitable<'a, S, A, G>(state: &S, entries: Vec<(&'a G, Vec<A>, i32)>) -> (r: Option<
    (&'a G, Vec<A>, i32),
>) where S: Clone + Hash + Eq, G: Goal<S>
    ensures
        best_entry(*state, entries_view(entries@), choice_view(r)),
{
    let ghost ev = entries_view(entries@);
    if entries.len() == 0 {
        return None;
    }
    let mut best: usize = 0;
    let mut best_profit: i64 = entries[0].0.priority(state) as i64 - entries[0].2 as i64;
    let mut k: usize = 1;
    while k < entries.len()
        invariant
            ev == entries_view(entries@),
            best < k <= entries@.len(),
            best_profit as int == profit(*state, ev[best as int].0, ev[best as int].2),
            forall|m: int|
                #![trigger ev[m]]
                0 <= m < k ==> profit(*state, ev[m].0, ev[m].2) <= best_profit,
            forall|m: int|
                #![trigger ev[m]]
                0 <= m < best ==> profit(*state, ev[m].0, ev[m].2) < best_profit,
        decreases entries.len() - k,
    {
        let p = entries[k].0.priority(state) as i64 - entries[k].2 as i64;
        assert(p as int == profit(*state, ev[k as int].0, ev[k as int].2));
        if p > best_profit {
            best = k;
            best_profit = p;
        }
        k = k + 1;
    }
    let mut entries = entries;
    let e = entries.swap_remove(best);
    let r = Some(e);
    assert(choice_view(r) == Some(ev[best as int]));
    r
}

/// `r` is what `Agent::plan_profit` may return: the entry of greatest profit
/// among the plans of all goals that can be reached.
pub open spec fn profit_choice<S: Clone + Hash + Eq, A: Action<S>, G: Goal<S>>(
    state: S,
    actions: Seq<A>,
    goals: Seq<G>,
    r: Option<(G, Seq<A>, int)>,
) -> bool {
    exists|entries: Seq<(G, Seq<A>, int)>|
        #[trigger] all_choices(state, actions, goals, entries) && best_entry(state, entries, r)
}

/// A stateful agent that picks, among several goals, the one to plan for.
#[derive(Clone, Debug, PartialEq, Eq)]
pub struct Agent<S, A, G> where
    S: Clone + Hash + Eq,
    A: Action<S> + Eq + Clone + Hash,
    G: Goal<S> + Clone,
 {
    pub state: S,
    pub actions: Vec<A>,
    pub goals: Vec<G>,
}

impl<S, A, G> Agent<S, A, G> where
    S: Clone + Hash + Eq,
    A: Action<S> + Eq + Clone + Hash,
    G: Goal<S> + Clone,
 {
    /// Each goal can be searched for from the current state (see `plan`).
    pub open spec fn plannable(&self) -> bool {
        &&& value_semantics::<S>()
        &&& clones_equal::<A>()
        &&& forall|i: int|
            0 <= i < self.goals@.len() ==> search_fits(self.state, self.actions@, #[trigger] self.goals@[i])
    }

    /// Creates an agent; its goals are sorted by descending priority in
    /// `state`, goals of equal priority keeping their order.
    pub fn new(state: S, actions: Vec<A>, goals: Vec<G>) -> (r: Self)
        requires
            clones_equal::<G>(),
        ensures
            r.state == state,
            r.actions == actions,
            ranked(state, goals@, r.goals@),
    {
        let mut new = Self { state, actions, goals };
        new.sort_goals();
        new
    }

    /// Sorts the goals by descending priority in the current state, stably.
    fn sort_goals(&mut self)
        requires
            clones_equal::<G>(),
        ensures
            final(self).state == old(self).state,
            final(self).actions == old(self).actions,
            ranked(old(self).state, old(self).goals@, final(self).goals@),
    {
        let ghost rs = goal_ranks(self.state, self.goals@);
        let mut ranks: Vec<i32> = Vec::new();
        let mut i: usize = 0;
        while i < self.goals.len()
            invariant
                i <= self.goals.len(),
                rs == goal_ranks(self.state, self.goals@),
                ranks@.len() == i,
                forall|k: int| 0 <= k < i ==> #[trigger] ranks@[k] as int == rs[k],
            decreases self.goals.len() - i,
        {
            let p = self.goals[i].priority(&self.state);
            ranks.push(p);
            i = i + 1;
        }
        assert(ranks@.map_values(|x: i32| x as int) =~= rs);
        let order = rank_order(&ranks);
        let mut sorted: Vec<G> = Vec::new();
        let mut k: usize = 0;
        while k < order.len()
            invariant
                k <= order.len(),
                order@.len() == self.goals@.len(),
                is_rank_order(rs, order@),
                clones_equal::<G>(),
                sorted@ =~= order@.subrange(0, k as int).map_values(|x: usize| self.goals@[x as int]),
            decreases order.len() - k,
        {
            let g = self.goals[order[k]].clone();
            sorted.push(g);
            k = k + 1;
        }
        assert(order@.subrange(0, order@.len() as int) =~= order@);
        let ghost before = self.goals@;
        self.goals = sorted;
        assert(is_rank_order(goal_ranks(self.state, before), order@));
    }

    /// Returns the first goal, in the current order, for which a plan exists,
    /// with that plan and its cost; `None` when no goal can be reached.
    /// The goals are not reordered.
    pub fn plan_constant(&self) -> (r: Option<(&G, Vec<A>, i32)>)
        requires
            self.plannable(),
        ensures
            first_choice(self.state, self.actions@, self.goals@, choice_view(r)),
    {
        let mut i: usize = 0;
        while i < self.goals.len()
            invariant
                i <= self.goals@.len(),
                self.plannable(),
                forall|j: int| 0 <= j < i ==> !reachable(self.state, self.actions@, #[trigger] self.goals@[j]),
            decreases self.goals.len() - i,
        {
            let goal = &self.goals[i];
            assert(search_fits(self.state, self.actions@, self.goals@[i as int]));
            match plan(&self.state, &self.actions, goal) {
                Some((steps, cost)) => {
                    let r = Some((goal, steps, cost));
                    assert(choice_view(r) == Some((self.goals@[i as int], steps@, cost as int)));
                    return r;
                },
                None => {},
            }
            i = i + 1;
        }
        None
    }

    /// Sorts the goals by descending priority in the current state (stably),
    /// then returns what `plan_constant` returns.
    pub fn plan_dynamic(&mut self) -> (r: Option<(&G, Vec<A>, i32)>)
        requires
            old(self).plannable(),
            clones_equal::<G>(),
        ensures
            final(self).state == old(self).state,
            final(self).actions == old(self).actions,
            ranked(old(self).state, old(self).goals@, final(self).goals@),
            first_choice(final(self).state, final(self).actions@, final(self).goals@, choice_view(r)),
    {
        let ghost before = self.goals@;
        self.sort_goals();
        proof {
            lemma_ranked_members(self.state, before, self.goals@);
            assert forall|i: int| 0 <= i < self.goals@.len() implies search_fits(
                self.state,
                self.actions@,
                #[trigger] self.goals@[i],
            ) by {
                assert(before.contains(self.goals@[i]));
                let j = choose|j: int| 0 <= j < before.len() && before[j] == self.goals@[i];
                assert(search_fits(self.state, self.actions@, before[j]));
            }
        }
        self.plan_constant()
    }

    /// Plans for every goal, in the current order, and returns each goal that
    /// can be reached with its plan and cost.
    pub fn plan_all(&self) -> (r: Vec<(&G, Vec<A>, i32)>)
        requires
            self.plannable(),
        ensures
            all_choices(self.state, self.actions@, self.goals@, entries_view(r@)),
    {
        let mut r: Vec<(&G, Vec<A>, i32)> = Vec::new();
        let ghost mut at: Seq<int> = Seq::empty();
        let mut i: usize = 0;
        while i < self.goals.len()
            invariant
                i <= self.goals@.len(),
                self.plannable(),
                at.len() == r@.len(),
                forall|k: int, l: int| 0 <= k < l < at.len() ==> #[trigger] at[k] < #[trigger] at[l],
                forall|k: int| 0 <= k < at.len() ==> 0 <= #[trigger] at[k] < i,
                forall|k: int|
                    #![trigger entries_view(r@)[k]]
                    0 <= k < r@.len() ==> {
                        &&& entries_view(r@)[k].0 == self.goals@[at[k]]
                        &&& is_plan_for(
                            self.state,
                            self.actions@,
                            entries_view(r@)[k].0,
                            entries_view(r@)[k].1,
                            entries_view(r@)[k].2,
                        )
                    },
                forall|j: int|
                    0 <= j < i && reachable(self.state, self.actions@, #[trigger] self.goals@[j]) ==> exists|k: int|
                        0 <= k < at.len() && at[k] == j,
            decreases self.goals.len() - i,
        {
            let goal = &self.goals[i];
            assert(search_fits(self.state, self.actions@, self.goals@[i as int]));
            match plan(&self.state, &self.actions, goal) {
                Some((steps, cost)) => {
                    let ghost old_r = r@;
                    let ghost old_at = at;
                    r.push((goal, steps, cost));
                    proof {
                        at = at.push(i as int);
                        assert(entries_view(r@) =~= entries_view(old_r).push(
                            (self.goals@[i as int], steps@, cost as int),
                        ));
                        assert(at[at.len() - 1] == i as int);
                        assert forall|k: int| 0 <= k < old_at.len() implies #[trigger] at[k] == old_at[k] by {}
                        assert forall|j: int|
                            0 <= j < i + 1 && reachable(self.state, self.actions@, #[trigger] self.goals@[j]) implies exists|k: int|
                            0 <= k < at.len() && at[k] == j by {
                            if j < i {
                                let k = choose|k: int| 0 <= k < old_at.len() && old_at[k] == j;
                                assert(at[k] == j);
                            } else {
                                assert(at[at.len() - 1] == j);
                            }
                        }
                    }
                },
                None => {},
            }
            i = i + 1;
        }
        assert(choices_at(self.state, self.actions@, self.goals@, entries_view(r@), at));
        r
    }

    /// Plans for every goal and returns the goal of greatest profit (priority
    /// minus plan cost) with its plan and cost, the first in goal order when
    /// several tie; `None` when no goal can be reached.
    pub fn plan_profit(&self) -> (r: Option<(&G, Vec<A>, i32)>)
        requires
            self.plannable(),
        ensures
            profit_choice(self.state, self.actions@, self.goals@, choice_view(r)),
    {
        let entries = self.plan_all();
        let ghost ev = entries_view(entries@);
        let r = most_profitable(&self.state, entries);
        assert(all_choices(self.state, self.actions@, self.goals@, ev));
        assert(best_entry(self.state, ev, choice_view(r)));
        r
    }
}

/// Each goal of a ranking is one of the goals it ranks.
proof fn lemma_ranked_members<S: Clone + Hash + Eq, G: Goal<S>>(
    state: S,
    goals: Seq<G>,
    sorted: Seq<G>,
)
    requires
        ranked(state, goals, sorted),
    ensures
        sorted.len() == goals.len(),
        forall|i: int| 0 <= i < sorted.len() ==> goals.contains(#[trigger] sorted[i]),
{
    let order = choose|order: Seq<usize>|
        #[trigger] is_rank_order(goal_ranks(state, goals), order) && sorted == order.map_values(
            |x: usize| goals[x as int],
        );
    assert forall|i: int| 0 <= i < sorted.len() implies goals.contains(#[trigger] sorted[i]) by {
        assert(goal_ranks(state, goals).len() == goals.len());
        assert(0 <= order[i] < goals.len());
        assert(sorted[i] == goals[order[i] as int]);
    }
}

/// The goal of a ranking of equal priority keep their order: when goal `i`
/// comes before goal `j` and both have the same priority, some occurrence of
/// goal `i` precedes some occurrence of goal `j` in the ranking.
pub proof fn lemma_ranking_is_stable<S: Clone + Hash + Eq, G: Goal<S>>(
    state: S,
    goals: Seq<G>,
    sorted: Seq<G>,
    i: int,
    j: int,
)
    requires
        ranked(state, goals, sorted),
        0 <= i < j < goals.len(),
        goals[i].rank(state) == goals[j].rank(state),
    ensures
        exists|p: int, q: int|
            0 <= p < q < sorted.len() && #[trigger] sorted[p] == goals[i] && #[trigger] sorted[q]
                == goals[j],
{
    let rs = goal_ranks(state, goals);
    let order = choose|order: Seq<usize>|
        #[trigger] is_rank_order(rs, order) && sorted == order.map_values(|x: usize| goals[x as int]);
    assert(lists(order, i));
    assert(lists(order, j));
    let p = choose|p: int| 0 <= p < order.len() && order[p] as int == i;
    let q = choose|q: int| 0 <= q < order.len() && order[q] as int == j;
    if q < p {
        assert(ranks_before(rs, order[q] as int, order[p] as int));
    }
    assert(sorted[p] == goals[i] && sorted[q] == goals[j]);
}

/// Ranking the same goals in the same state twice gives the same order.
pub proof fn lemma_ranking_deterministic<S: Clone + Hash + Eq, G: Goal<S>>(
    state: S,
    goals: Seq<G>,
    sorted1: Seq<G>,
    sorted2: Seq<G>,
)
    requires
        ranked(state, goals, sorted1),
        ranked(state, goals, sorted2),
    ensures
        sorted1 == sorted2,
{
    let rs = goal_ranks(state, goals);
    let o1 = choose|order: Seq<usize>|
        #[trigger] is_rank_order(rs, order) && sorted1 == order.map_values(|x: usize| goals[x as int]);
    let o2 = choose|order: Seq<usize>|
        #[trigger] is_rank_order(rs, order) && sorted2 == order.map_values(|x: usize| goals[x as int]);
    lemma_rank_order_unique(rs, o1, o2);
}

/// Ranking goals that are already ranked in the same state leaves them as they are.
pub proof fn lemma_ranking_idempotent<S: Clone + Hash + Eq, G: Goal<S>>(
    state: S,
    goals: Seq<G>,
    sorted: Seq<G>,
    again: Seq<G>,
)
    requires
        ranked(state, goals, sorted),
        ranked(state, sorted, again),
        goals.len() <= usize::MAX,
    ensures
        again == sorted,
{
    let rs = goal_ranks(state, goals);
    let order = choose|order: Seq<usize>|
        #[trigger] is_rank_order(rs, order) && sorted == order.map_values(|x: usize| goals[x as int]);
    lemma_rank_order_of_ranked(rs, order);
    let id = Seq::new(rs.len(), |k: int| k as usize);
    assert(order.map_values(|x: usize| rs[x as int]) =~= goal_ranks(state, sorted));
    assert(id.map_values(|x: usize| sorted[x as int]) =~= sorted);
    assert(ranked(state, sorted, sorted));
    lemma_ranking_deterministic(state, sorted, again, sorted);
}

/// When no goal can be reached, `plan_constant` and `plan_dynamic` return
/// `None`, `plan_all` returns no entry and `plan_profit` returns `None`.
pub proof fn lemma_nothing_reachable<S: Clone + Hash + Eq, A: Action<S>, G: Goal<S>>(
    state: S,
    actions: Seq<A>,
    goals: Seq<G>,
    first: Option<(G, Seq<A>, int)>,
    entries: Seq<(G, Seq<A>, int)>,
    best: Option<(G, Seq<A>, int)>,
)
    requires
        forall|i: int| 0 <= i < goals.len() ==> !reachable(state, actions, #[trigger] goals[i]),
        first_choice(state, actions, goals, first),
        all_choices(state, actions, goals, entries),
        profit_choice(state, actions, goals, best),
    ensures
        first is None,
        entries.len() == 0,
        best is None,
{
    lemma_all_choices_empty(state, actions, goals, entries);
    let e2 = choose|e2: Seq<(G, Seq<A>, int)>|
        #[trigger] all_choices(state, actions, goals, e2) && best_entry(state, e2, best);
    lemma_all_choices_empty(state, actions, goals, e2);
    if first is Some {
        let (g, steps, cost) = first->0;
        let i = choose|i: int|
            #![trigger goals[i]]
            {
                &&& 0 <= i < goals.len()
                &&& g == goals[i]
                &&& forall|j: int| 0 <= j < i ==> !reachable(state, actions, #[trigger] goals[j])
                &&& is_plan_for(state, actions, g, steps, cost)
            };
        assert(reachable(state, actions, goals[i]));
    }
}

/// An agent without goals picks nothing: `plan_constant` and `plan_dynamic`
/// return `None`, `plan_all` returns no entry and `plan_profit` returns `None`.
pub proof fn lemma_no_goals<S: Clone + Hash + Eq, A: Action<S>, G: Goal<S>>(
    state: S,
    actions: Seq<A>,
    goals: Seq<G>,
    first: Option<(G, Seq<A>, int)>,
    entries: Seq<(G, Seq<A>, int)>,
    best: Option<(G, Seq<A>, int)>,
)
    requires
        goals.len() == 0,
        first_choice(state, actions, goals, first),
        all_choices(state, actions, goals, entries),
        profit_choice(state, actions, goals, best),
    ensures
        first is None,
        entries.len() == 0,
        best is None,
{
    lemma_nothing_reachable(state, actions, goals, first, entries, best);
}

proof fn lemma_all_choices_empty<S: Clone + Hash + Eq, A: Action<S>, G: Goal<S>>(
    state: S,
    actions: Seq<A>,
    goals: Seq<G>,
    entries: Seq<(G, Seq<A>, int)>,
)
    requires
        forall|i: int| 0 <= i < goals.len() ==> !reachable(state, actions, #[trigger] goals[i]),
        all_choices(state, actions, goals, entries),
    ensures
        entries.len() == 0,
{
    if entries.len() > 0 {
        let at = choose|at: Seq<int>| #[trigger] choices_at(state, actions, goals, entries, at);
        let e = entries[0];
        assert(reachable(state, actions, goals[at[0]]));
    }
}

/// Two answers of `plan_constant` on the same goals name the same goal, at
/// the same cost when its heuristic never overestimates.
pub proof fn lemma_first_choice_unique<S: Clone + Hash + Eq, A: Action<S>, G: Goal<S>>(
    state: S,
    actions: Seq<A>,
    goals: Seq<G>,
    r1: Option<(G, Seq<A>, int)>,
    r2: Option<(G, Seq<A>, int)>,
)
    requires
        first_choice(state, actions, goals, r1),
        first_choice(state, actions, goals, r2),
    ensures
        r1 is None <==> r2 is None,
        r1 is Some && r2 is Some ==> (r1->0).0 == (r2->0).0,
        r1 is Some && r2 is Some && admissible(state, actions, (r1->0).0) ==> (r1->0).2 == (r2->0).2,
{
    if r1 is Some {
        let (g1, steps1, cost1) = r1->0;
        let i1 = choose|i: int|
            #![trigger goals[i]]
            {
                &&& 0 <= i < goals.len()
                &&& g1 == goals[i]
                &&& forall|j: int| 0 <= j < i ==> !reachable(state, actions, #[trigger] goals[j])
                &&& is_plan_for(state, actions, g1, steps1, cost1)
            };
        assert(reachable(state, actions, goals[i1]));
        if r2 is Some {
            let (g2, steps2, cost2) = r2->0;
            let i2 = choose|i: int|
                #![trigger goals[i]]
                {
                    &&& 0 <= i < goals.len()
                    &&& g2 == goals[i]
                    &&& forall|j: int| 0 <= j < i ==> !reachable(state, actions, #[trigger] goals[j])
                    &&& is_plan_for(state, actions, g2, steps2, cost2)
                };
            assert(reachable(state, actions, goals[i2]));
            assert(i1 == i2);
            if admissible(state, actions, g1) {
                lemma_cheapest_unique(state, actions, g1, steps1, steps2);
            }
        }
    } else if r2 is Some {
        let (g2, steps2, cost2) = r2->0;
        let i2 = choose|i: int|
            #![trigger goals[i]]
            {
                &&& 0 <= i < goals.len()
                &&& g2 == goals[i]
                &&& forall|j: int| 0 <= j < i ==> !reachable(state, actions, #[trigger] goals[j])
                &&& is_plan_for(state, actions, g2, steps2, cost2)
            };
        assert(reachable(state, actions, goals[i2]));
    }
}

/// `plan_constant` and `plan_all` agree: the first finds nothing exactly when
/// the second has no entry; otherwise the first entry of `plan_all` is the
/// goal that `plan_constant` picks, at the same cost when that goal's
/// heuristic never overestimates.
pub proof fn lemma_first_matches_all<S: Clone + Hash + Eq, A: Action<S>, G: Goal<S>>(
    state: S,
    actions: Seq<A>,
    goals: Seq<G>,
    first: Option<(G, Seq<A>, int)>,
    entries: Seq<(G, Seq<A>, int)>,
)
    requires
        first_choice(state, actions, goals, first),
        all_choices(state, actions, goals, entries),
    ensures
        first is None <==> entries.len() == 0,
        first is Some ==> entries[0].0 == (first->0).0,
        first is Some && admissible(state, actions, (first->0).0) ==> entries[0].2 == (first->0).2,
{
    let at = choose|at: Seq<int>| #[trigger] choices_at(state, actions, goals, entries, at);
    if first is Some {
        let (g, steps, cost) = first->0;
        let i = choose|i: int|
            #![trigger goals[i]]
            {
                &&& 0 <= i < goals.len()
                &&& g == goals[i]
                &&& forall|j: int| 0 <= j < i ==> !reachable(state, actions, #[trigger] goals[j])
                &&& is_plan_for(state, actions, g, steps, cost)
            };
        assert(reachable(state, actions, goals[i]));
        let k = choose|k: int| 0 <= k < at.len() && at[k] == i;
        if k > 0 {
            assert(at[0] < at[k]);
            assert(is_plan_for(state, actions, entries[0].0, entries[0].1, entries[0].2));
            assert(reachable(state, actions, goals[at[0]]));
        }
        assert(is_plan_for(state, actions, entries[0].0, entries[0].1, entries[0].2));
        if admissible(state, actions, g) {
            lemma_cheapest_unique(state, actions, g, steps, entries[0].1);
        }
    } else {
        assert forall|i: int| 0 <= i < goals.len() implies !reachable(state, actions, #[trigger] goals[i]) by {}
        lemma_all_choices_empty(state, actions, goals, entries);
    }
}

/// When no goal's heuristic overestimates, the goal that `plan_profit` picks
/// has a profit no smaller than that of any entry that `plan_all` returns.
pub proof fn lemma_profit_is_greatest<S: Clone + Hash + Eq, A: Action<S>, G: Goal<S>>(
    state: S,
    actions: Seq<A>,
    goals: Seq<G>,
    best: (G, Seq<A>, int),
    entries: Seq<(G, Seq<A>, int)>,
)
    requires
        forall|i: int| 0 <= i < goals.len() ==> admissible(state, actions, #[trigger] goals[i]),
        profit_choice(state, actions, goals, Some(best)),
        all_choices(state, actions, goals, entries),
    ensures
        forall|k: int|
            #![trigger entries[k]]
            0 <= k < entries.len() ==> profit(state, entries[k].0, entries[k].2) <= profit(
                state,
                best.0,
                best.2,
            ),
{
    let own = choose|e: Seq<(G, Seq<A>, int)>|
        #[trigger] all_choices(state, actions, goals, e) && best_entry(state, e, Some(best));
    let at1 = choose|at: Seq<int>| #[trigger] choices_at(state, actions, goals, own, at);
    let at2 = choose|at: Seq<int>| #[trigger] choices_at(state, actions, goals, entries, at);
    assert forall|k: int|
        #![trigger entries[k]]
        0 <= k < entries.len() implies profit(state, entries[k].0, entries[k].2) <= profit(
        state,
        best.0,
        best.2,
    ) by {
        let i = at2[k];
        assert(is_plan_for(state, actions, entries[k].0, entries[k].1, entries[k].2));
        assert(reachable(state, actions, goals[i]));
        let k1 = choose|k1: int| 0 <= k1 < at1.len() && at1[k1] == i;
        assert(is_plan_for(state, actions, own[k1].0, own[k1].1, own[k1].2));
        assert(admissible(state, actions, goals[i]));
        lemma_cheapest_unique(state, actions, goals[i], own[k1].1, entries[k].1);
    }
}

/// Calling `plan_dynamic` twice with nothing changed in between leaves the
/// goals in the same order and picks the same goal, at the same cost when
/// its heuristic never overestimates.
pub proof fn lemma_dynamic_repeat<S: Clone + Hash + Eq, A: Action<S>, G: Goal<S>>(
    state: S,
    actions: Seq<A>,
    goals: Seq<G>,
    goals1: Seq<G>,
    r1: Option<(G, Seq<A>, int)>,
    goals2: Seq<G>,
    r2: Option<(G, Seq<A>, int)>,
)
    requires
        goals.len() <= usize::MAX,
        ranked(state, goals, goals1),
        first_choice(state, actions, goals1, r1),
        ranked(state, goals1, goals2),
        first_choice(state, actions, goals2, r2),
    ensures
        goals2 == goals1,
        r1 is None <==> r2 is None,
        r1 is Some && r2 is Some ==> (r1->0).0 == (r2->0).0,
        r1 is Some && r2 is Some && admissible(state, actions, (r1->0).0) ==> (r1->0).2 == (r2->0).2,
{
    lemma_ranking_idempotent(state, goals, goals1, goals2);
    lemma_first_choice_unique(state, actions, goals1, r1, r2);
}

} // verus!
