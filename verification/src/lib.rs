//! A hierarchical-task-network (HTN) planner: a declarative world model of
//! typed facts, a catalog of tasks with pre- and postconditions, and an
//! incremental tree search that turns a goal into an ordered, costed plan.

pub mod data;
pub mod events;
pub mod orchestration;
pub mod planning;
pub mod tasks;
pub mod timing;
