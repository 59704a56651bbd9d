use planning::{plan, Action, Goal, PlanNode};

#[derive(PartialEq, Eq, Hash, Clone, Debug)]
struct Switch {
    is_correct: bool,
}

#[derive(PartialEq, Eq, Hash, Clone, Debug)]
struct MakeCorrect;

impl Action<Switch> for MakeCorrect {
    fn is_applicable(&self, state: &Switch) -> bool {
        !state.is_correct
    }

    fn apply_mut(&self, state: &mut Switch) {
        state.is_correct = true;
    }

    fn cost(&self, _state: &Switch) -> i32 {
        1
    }
}

#[derive(PartialEq, Eq, Hash, Clone, Debug)]
struct IsCorrect;

impl Goal<Switch> for IsCorrect {
    fn is_satisfied(&self, state: &Switch) -> bool {
        state.is_correct
    }

    fn heuristic(&self, _state: &Switch) -> i32 {
        0
    }

    fn priority(&self, _state: &Switch) -> i32 {
        0
    }
}

#[test]
fn plan_empty() {
    let initial_state = Switch { is_correct: false };
    let mut actions = vec![];
    let goal = IsCorrect;

    let result = plan(&initial_state, &actions, &goal);
    assert_eq!(result, None);

    actions.push(MakeCorrect);

    let (path, cost) = plan(&initial_state, &actions, &goal).unwrap();
    assert_eq!(path, vec![MakeCorrect]);
    assert_eq!(cost, 1);

    let initial_state = Switch { is_correct: true };

    let (path, cost) = plan(&initial_state, &actions, &goal).unwrap();
    assert_eq!(path, vec![]);
    assert_eq!(cost, 0);
}

#[test]
fn plan_one() {
    let initial_state = Switch { is_correct: false };
    let actions = vec![MakeCorrect];
    let goal = IsCorrect;

    let (path, cost) = plan(&initial_state, &actions, &goal).unwrap();
    assert_eq!(path, vec![MakeCorrect]);
    assert_eq!(cost, 1);

    let initial_state = Switch { is_correct: true };

    let (path, cost) = plan(&initial_state, &actions, &goal).unwrap();
    assert_eq!(path, vec![]);
    assert_eq!(cost, 0);
}

#[test]
fn plan_no_actions_unsatisfied_is_none() {
    let actions: Vec<MakeCorrect> = vec![];
    assert_eq!(plan(&Switch { is_correct: false }, &actions, &IsCorrect), None);
    assert_eq!(plan(&Switch { is_correct: true }, &actions, &IsCorrect), Some((vec![], 0)));
}

#[test]
fn plan_node_children_follow_applicable_actions() {
    let node = PlanNode { state: Switch { is_correct: false }, action: None };
    let children = node.children(&vec![MakeCorrect, MakeCorrect]);
    assert_eq!(children.len(), 2);
    assert!(children[0].0 == PlanNode { state: Switch { is_correct: true }, action: Some(0) });
    assert!(children[1].0 == PlanNode { state: Switch { is_correct: true }, action: Some(1) });
    assert_eq!(children[0].1, 1);
    let done = PlanNode { state: Switch { is_correct: true }, action: Some(0) };
    assert_eq!(done.children(&vec![MakeCorrect]).len(), 0);
}

type Pos = (i32, i32);

fn manhattan_distance(a: Pos, b: Pos) -> i32 {
    (a.0 - b.0).abs() + (a.1 - b.1).abs()
}

#[derive(PartialEq, Eq, Hash, Clone, Debug)]
struct Camp {
    has_wood: bool,
    has_axe: bool,
    house_built: bool,
    position: Pos,
    nearest_tree: Pos,
    nearest_axe: Pos,
}

#[derive(PartialEq, Eq, Hash, Clone, Debug)]
enum Chore {
    ChopTree,
    GrabAxe,
    BuildHouse,
    GoToTree,
    GoToAxe,
    GoHome,
}

impl Action<Camp> for Chore {
    fn is_applicable(&self, state: &Camp) -> bool {
        match self {
            Chore::ChopTree => state.has_axe && state.position == state.nearest_tree,
            Chore::GrabAxe => !state.has_axe && state.position == state.nearest_axe,
            Chore::BuildHouse => state.has_wood && state.position == (0, 0),
            Chore::GoToTree => state.position != state.nearest_tree,
            Chore::GoToAxe => state.position != state.nearest_axe,
            Chore::GoHome => state.position != (0, 0),
        }
    }

    fn apply_mut(&self, state: &mut Camp) {
        match self {
            Chore::ChopTree => state.has_wood = true,
            Chore::GrabAxe => state.has_axe = true,
            Chore::BuildHouse => state.house_built = true,
            Chore::GoToTree => state.position = state.nearest_tree,
            Chore::GoToAxe => state.position = state.nearest_axe,
            Chore::GoHome => state.position = (0, 0),
        }
    }

    fn cost(&self, state: &Camp) -> i32 {
        match self {
            Chore::GoToTree => manhattan_distance(state.position, state.nearest_tree),
            Chore::GoToAxe => manhattan_distance(state.position, state.nearest_axe),
            Chore::GoHome => manhattan_distance(state.position, (0, 0)),
            _ => 1,
        }
    }
}

#[derive(PartialEq, Eq, Hash, Clone, Debug)]
struct HouseBuilt;

impl Goal<Camp> for HouseBuilt {
    fn is_satisfied(&self, state: &Camp) -> bool {
        state.house_built
    }

    fn heuristic(&self, state: &Camp) -> i32 {
        let mut result = 0;
        if !state.has_axe {
            result += manhattan_distance(state.position, state.nearest_axe);
        }
        if !state.has_wood {
            result += manhattan_distance(state.nearest_axe, state.nearest_tree);
        }
        if !state.house_built {
            result += manhattan_distance(state.nearest_tree, (0, 0));
        }
        result
    }

    fn priority(&self, _state: &Camp) -> i32 {
        0
    }
}

#[derive(PartialEq, Eq, Hash, Clone, Debug)]
struct HouseBuiltUnguided;

impl Goal<Camp> for HouseBuiltUnguided {
    fn is_satisfied(&self, state: &Camp) -> bool {
        state.house_built
    }

    fn heuristic(&self, _state: &Camp) -> i32 {
        0
    }

    fn priority(&self, _state: &Camp) -> i32 {
        0
    }
}

fn camp() -> Camp {
    Camp {
        has_wood: false,
        has_axe: false,
        house_built: false,
        position: (0, 0),
        nearest_tree: (1, 1),
        nearest_axe: (2, 2),
    }
}

fn chores() -> Vec<Chore> {
    vec![
        Chore::ChopTree,
        Chore::GrabAxe,
        Chore::BuildHouse,
        Chore::GoToTree,
        Chore::GoToAxe,
        Chore::GoHome,
    ]
}

#[test]
fn plan_complex() {
    let initial_state = camp();
    let actions = chores();
    let goal = HouseBuilt;

    let (path, cost) = plan(&initial_state, &actions, &goal).unwrap();
    assert_eq!(
        path,
        vec![
            Chore::GoToAxe,
            Chore::GrabAxe,
            Chore::GoToTree,
            Chore::ChopTree,
            Chore::GoHome,
            Chore::BuildHouse,
        ]
    );
    assert_eq!(cost, 11);
}

#[test]
fn plan_replays_to_goal_at_its_cost() {
    let initial_state = camp();
    let actions = chores();
    let (path, cost) = plan(&initial_state, &actions, &HouseBuilt).unwrap();
    let mut state = initial_state.clone();
    let mut total = 0;
    for action in &path {
        assert!(action.is_applicable(&state));
        total += action.cost(&state);
        state = action.apply(&state);
    }
    assert!(HouseBuilt.is_satisfied(&state));
    assert_eq!(total, cost);
}

fn cheapest_by_enumeration(state: &Camp, actions: &[Chore], depth: usize) -> Option<i32> {
    if HouseBuilt.is_satisfied(state) {
        return Some(0);
    }
    if depth == 0 {
        return None;
    }
    let mut best: Option<i32> = None;
    for action in actions {
        if action.is_applicable(state) {
            let step = action.cost(state);
            if let Some(rest) = cheapest_by_enumeration(&action.apply(state), actions, depth - 1) {
                let total = step + rest;
                best = Some(match best {
                    Some(b) if b <= total => b,
                    _ => total,
                });
            }
        }
    }
    best
}

#[test]
fn plan_cost_is_least_of_all_sequences() {
    let actions = chores();
    let mut start = camp();
    start.nearest_tree = (2, 0);
    start.nearest_axe = (0, 1);
    let (_, cost) = plan(&start, &actions, &HouseBuiltUnguided).unwrap();
    assert_eq!(Some(cost), cheapest_by_enumeration(&start, &actions, 7));
    assert_eq!(cost, 1 + 1 + 3 + 1 + 2 + 1);
    let (_, cost) = plan(&camp(), &actions, &HouseBuiltUnguided).unwrap();
    assert_eq!(Some(cost), cheapest_by_enumeration(&camp(), &actions, 7));
    assert_eq!(cost, 11);
}

#[test]
fn plan_unreachable_goal_is_none() {
    let actions = vec![Chore::GoToTree, Chore::GoToAxe, Chore::GoHome];
    assert_eq!(plan(&camp(), &actions, &HouseBuilt), None);
}
