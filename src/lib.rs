//! Planning of minimal-cost sequences of actions that reach a goal.
//!
//! [`plan`] searches for a cheapest sequence of actions from a state to one
//! that satisfies a goal. [`Agent`] holds a state, actions and several goals,
//! and picks which goal to plan for.
mod action;
mod agent;
mod goal;
mod order;
mod plan;

pub use action::{clones_equal, Action};
pub use agent::{most_profitable, Agent};
pub use goal::Goal;
pub use plan::{PlanNode, plan};
