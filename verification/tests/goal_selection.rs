//! Goal selection policies and the per-agent planning state.

use htn_planner::data::{Num, Requirements, Variant, WorldState};
use htn_planner::planning::goals::{Goal, GoalEvaluation};
use htn_planner::planning::HtnAgent;
use htn_planner::tasks::Task;

type Chooser = fn(&Vec<Goal>, &WorldState) -> Option<Goal>;

fn b(v: bool) -> Variant {
    Variant::Bool(v)
}

#[test]
fn goal_picking_planning() {
    let mut agent: HtnAgent<Chooser> = HtnAgent::default();
    agent.goal_eval = GoalEvaluation::Top;
    let goal_a = WorldState::new().add("A", b(true)).build();
    let goal_b = WorldState::new().add("B", b(true)).build();
    let goal_c = WorldState::new().add("C", b(true)).build();

    let world_ab = WorldState::new().add("A", b(true)).add("B", b(true)).build();
    let world_b = WorldState::new().add("B", b(true)).build();
    let world_not_a = WorldState::new().add("A", b(false)).add("B", b(true)).build();

    agent.add_goal("A", goal_a.to_requirements(), Num::whole(1));
    agent.add_goal("B", goal_b.to_requirements(), Num::whole(1));
    agent.add_goal("C", goal_c.to_requirements(), Num::whole(1));

    let next_goal = agent.get_next_goal(&WorldState::new());
    assert!(next_goal.is_some());
    let next_goal = next_goal.unwrap();

    assert!(next_goal.requirements.validate(&world_ab));
    assert!(!next_goal.requirements.validate(&world_b));
    assert!(!next_goal.requirements.validate(&world_not_a));
}

fn named_goals(utilities: &[(&str, i64)]) -> Vec<Goal> {
    utilities
        .iter()
        .map(|(name, u)| Goal::new(*name, Requirements::new(), Num::whole(*u)))
        .collect()
}

#[test]
fn empty_candidate_list_yields_nothing() {
    let world = WorldState::new();
    let goals: Vec<Goal> = Vec::new();
    let top: GoalEvaluation<Chooser> = GoalEvaluation::Top;
    let random: GoalEvaluation<Chooser> = GoalEvaluation::Random;
    let weighted: GoalEvaluation<Chooser> = GoalEvaluation::RandomWeighted;
    assert!(top.next_goal(&goals, &world).is_none());
    assert!(random.next_goal(&goals, &world).is_none());
    assert!(weighted.next_goal(&goals, &world).is_none());
}

#[test]
fn top_policy_takes_the_first() {
    let world = WorldState::new();
    let goals = named_goals(&[("first", 1), ("second", 9)]);
    let top: GoalEvaluation<Chooser> = GoalEvaluation::Top;
    let picked = top.next_goal(&goals, &world).expect("a goal");
    assert_eq!(picked.name, "first");
}

#[test]
fn random_policy_picks_a_candidate() {
    let world = WorldState::new();
    let goals = named_goals(&[("only", 1)]);
    let random: GoalEvaluation<Chooser> = GoalEvaluation::Random;
    let picked = random.next_goal(&goals, &world).expect("a goal");
    assert_eq!(picked.name, "only");
}

#[test]
fn weighted_policy_follows_the_weights() {
    let world = WorldState::new();
    let weighted: GoalEvaluation<Chooser> = GoalEvaluation::RandomWeighted;

    // only one goal carries weight: it must be the one drawn
    let goals = named_goals(&[("zero_a", 0), ("zero_b", 0), ("heavy", 7)]);
    let picked = weighted.next_goal(&goals, &world).expect("a goal");
    assert_eq!(picked.name, "heavy");

    // all zero weights cannot form a distribution: fails closed
    let zeros = named_goals(&[("a", 0), ("b", 0)]);
    assert!(weighted.next_goal(&zeros, &world).is_none());

    // a negative weight cannot form a distribution either
    let negative = named_goals(&[("good", 2), ("bad", -1)]);
    assert!(weighted.next_goal(&negative, &world).is_none());
}

#[test]
fn custom_policy_is_consulted() {
    let world = WorldState::new();
    let goals = named_goals(&[("first", 1), ("last", 2)]);
    let custom: GoalEvaluation<Chooser> =
        GoalEvaluation::Custom(|gs: &Vec<Goal>, _w: &WorldState| gs.last().cloned());
    let picked = custom.next_goal(&goals, &world).expect("a goal");
    assert_eq!(picked.name, "last");
}

#[test]
fn agent_accumulates_tasks_and_goals() {
    let mut agent: HtnAgent<Chooser> = HtnAgent::new();
    assert!(!agent.has_plan());
    agent.add_task(Task::primitive("one"));
    agent.add_task(Task::primitive("two"));
    assert_eq!(agent.available_tasks.len(), 2);
    agent.add_goal("g", Requirements::new(), Num::whole(3));
    assert_eq!(agent.goals.len(), 1);
    assert_eq!(agent.goals[0].name, "g");
}
