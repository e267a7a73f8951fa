//! Goal-oriented action planning.
//!
//! Given a current world state (named boolean atoms), a partial goal state and
//! a catalog of actions (preconditions, postconditions, a non-negative cost),
//! [`plan`] computes a minimum-cost ordered sequence of actions that turns the
//! current state into one satisfying the goal, or reports that none exists.

pub mod action;
pub mod laws;
pub mod model;
pub mod planner;
pub mod space;
pub mod state;

pub use crate::action::Action;
pub use crate::model::AtomMap;
pub use crate::planner::plan;
pub use crate::state::State;
