//! The planning layer: goals and their selection, the incremental tree
//! search, and the per-agent planning state.

pub mod goals;
pub mod plan_data;
pub mod tree;

use vstd::prelude::*;

use crate::data::{Num, Requirements, WorldState};
use crate::planning::goals::{Goal, GoalEvaluation};
use crate::planning::plan_data::Plan;
use crate::tasks::Task;

verus! {

/// An agent's planning state: its candidate goals, the plan it currently
/// follows, the tasks available to it, and its goal-selection policy.
pub struct HtnAgent<F> where F: Fn(&Vec<Goal>, &WorldState) -> Option<Goal> {
    pub goals: Vec<Goal>,
    pub current_plan: Option<Plan>,
    pub available_tasks: Vec<Task>,
    pub goal_eval: GoalEvaluation<F>,
}

/// How urgently an agent wants a plan; agents of lower priority plan first.
pub struct HtnAgentPlanningPriority(pub Num);

impl Default for HtnAgentPlanningPriority {
    fn default() -> (r: Self)
        ensures
            r.0@ == 0,
    {
        HtnAgentPlanningPriority(Num { units: 0 })
    }
}

impl<F> HtnAgent<F> where F: Fn(&Vec<Goal>, &WorldState) -> Option<Goal> {
    /// An agent with no goals, no plan, no tasks, picking the top goal.
    pub fn new() -> (r: Self)
        ensures
            r.goals@.len() == 0,
            r.current_plan is None,
            r.available_tasks@.len() == 0,
            r.goal_eval is Top,
    {
        HtnAgent {
            goals: Vec::new(),
            current_plan: None,
            available_tasks: Vec::new(),
            goal_eval: GoalEvaluation::Top,
        }
    }

    /// Makes one more task available to the agent.
    pub fn add_task(&mut self, task: Task) -> (r: &mut Self)
        ensures
            (*r).available_tasks@ == old(self).available_tasks@.push(task),
            (*r).goals == old(self).goals,
            (*r).current_plan == old(self).current_plan,
            *final(self) == *final(r),
    {
        self.available_tasks.push(task);
        self
    }

    /// Adds a candidate goal of the given name, requirements and static
    /// utility.
    pub fn add_goal(&mut self, name: &str, goal: Requirements, static_utility: Num) -> (r:
        &mut Self)
        ensures
            (*r).goals@.len() == old(self).goals@.len() + 1,
            (*r).goals@.last()@ == (crate::planning::goals::GoalV {
                name: name@,
                requires: goal@,
                utility: static_utility@,
            }),
            (*r).goals@.last().wf() == goal.wf(),
            forall|i: int|
                0 <= i < old(self).goals@.len() ==> (*r).goals@[i] == old(self).goals@[i],
            (*r).available_tasks == old(self).available_tasks,
            (*r).current_plan == old(self).current_plan,
            *final(self) == *final(r),
    {
        self.goals.push(Goal::new(name, goal, static_utility));
        self
    }

    /// Whether the agent currently follows a plan.
    pub fn has_plan(&self) -> (r: bool)
        ensures
            r == (self.current_plan is Some),
    {
        self.current_plan.is_some()
    }

    /// Picks the goal the agent pursues this cycle, under its policy.
    pub fn get_next_goal(&self, world: &WorldState) -> (r: Option<Goal>)
        requires
            self.goal_eval matches GoalEvaluation::Custom(f) ==> call_requires(
                f,
                (&self.goals, world),
            ),
        ensures
            self.goals@.len() == 0 ==> r is None,
            self.goals@.len() > 0 && self.goal_eval is Top ==> (r matches Some(g) && g@
                == self.goals@[0]@ && g.wf() == self.goals@[0].wf()),
            self.goals@.len() > 0 && self.goal_eval is Random ==> (r matches Some(g) && exists|
                i: int,
            | 0 <= i < self.goals@.len() && g@ == self.goals@[i]@ && g.wf()
                == self.goals@[i].wf()),
            self.goals@.len() > 0 && self.goal_eval is RandomWeighted ==> ((r is Some
                <==> crate::planning::goals::weights_valid(self.goals@)) && (r matches Some(g)
                ==> exists|i: int|
                0 <= i < self.goals@.len() && g@ == self.goals@[i]@ && g.wf()
                    == self.goals@[i].wf() && self.goals@[i]@.utility > 0)),
            self.goals@.len() > 0 ==> (match self.goal_eval {
                GoalEvaluation::Custom(f) => call_ensures(f, (&self.goals, world), r),
                _ => true,
            }),
    {
        self.goal_eval.next_goal(&self.goals, world)
    }
}

impl<F> Default for HtnAgent<F> where F: Fn(&Vec<Goal>, &WorldState) -> Option<Goal> {
    fn default() -> (r: Self)
        ensures
            r.goals@.len() == 0,
            r.current_plan is None,
            r.available_tasks@.len() == 0,
            r.goal_eval is Top,
    {
        HtnAgent::new()
    }
}

} // verus!
