//! The incremental tree search: seeded frontiers, solution leaves, emitted
//! plans, the cost-improvement rule, the recursion guard and determinism.

use htn_planner::data::{Num, Requirements, Variant, WorldState};
use htn_planner::planning::goals::Goal;
use htn_planner::planning::plan_data::TimeSlicedTreeGen;
use htn_planner::tasks::{Task, TaskRegistry};

fn b(v: bool) -> Variant {
    Variant::Bool(v)
}

fn s(text: &str) -> Variant {
    Variant::String(htn_planner::data::UniqueName::new(text))
}

#[test]
fn single_task_planning() {
    let mut registry = TaskRegistry::new();
    registry.task(
        "test",
        Requirements::new().req_equals("hungry", b(true)).build(),
        WorldState::new().add("hungry", b(false)).build(),
        Num::whole(1),
    );

    let goal = Goal::new(
        "Be Not Hungry",
        Requirements::new().req_equals("hungry", b(false)).build(),
        Num::whole(1),
    );
    let mut gen =
        TimeSlicedTreeGen::new_initialized(vec![Task::primitive("test")], vec![goal.clone()]);
    // the depth limit mainly avoids excessive generation times
    gen.generate_to_completion(
        &registry,
        &WorldState::new().add("hungry", b(true)).build(),
        Some(8),
    );

    let result = gen.get_plan(&goal.name);

    assert!(result.is_some());
    let plan = result.unwrap();
    assert_eq!(plan.tasks.len(), 1);
    assert_eq!(plan.cost, Num::whole(1));
}

fn door_registry() -> TaskRegistry {
    let mut registry = TaskRegistry::new();
    registry.task(
        "goto_door",
        Requirements::new()
            .req_equals("room", s("A"))
            .req_equals("near_door", b(false))
            .build(),
        WorldState::new().add("near_door", b(true)).build(),
        Num::whole(1),
    );
    registry.task(
        "open_door",
        Requirements::new()
            .req_equals("near_door", b(true))
            .req_equals("door_open", b(false))
            .build(),
        WorldState::new().add("door_open", b(true)).build(),
        Num::whole(1),
    );
    registry.task(
        "walk_thru_door",
        Requirements::new()
            .req_equals("room", s("A"))
            .req_equals("door_open", b(true))
            .req_equals("near_door", b(true))
            .build(),
        WorldState::new().add("room", s("B")).build(),
        Num::whole(1),
    );
    registry
}

fn door_world() -> WorldState {
    WorldState::new()
        .add("room", s("A"))
        .add("near_door", b(false))
        .add("door_open", b(false))
        .build()
}

fn door_tasks() -> Vec<Task> {
    vec![
        Task::primitive("goto_door"),
        Task::primitive("open_door"),
        Task::primitive("walk_thru_door"),
    ]
}

#[test]
fn multi_task_planning() {
    let registry = door_registry();
    let goal = Goal::new(
        "Be in room B",
        Requirements::new().req_equals("room", s("B")).build(),
        Num::whole(1),
    );
    let mut gen = TimeSlicedTreeGen::new_initialized(door_tasks(), vec![goal.clone()]);
    // the depth limit mainly avoids excessive generation times
    gen.generate_to_completion(&registry, &door_world(), Some(8));

    let result = gen.get_plan(&goal.name);

    assert!(result.is_some());
    let plan = result.unwrap();
    assert_eq!(plan.tasks.len(), 3);
    assert_eq!(plan.cost, Num::whole(3));
}

#[test]
fn multi_task_plan_order() {
    let registry = door_registry();
    let goal = Goal::new(
        "Be in room B",
        Requirements::new().req_equals("room", s("B")).build(),
        Num::whole(1),
    );
    let mut gen = TimeSlicedTreeGen::new_initialized(door_tasks(), vec![goal.clone()]);
    gen.generate_to_completion(&registry, &door_world(), Some(8));

    let plan = gen.get_plan(&goal.name).expect("a plan");
    // tasks are stored leaf to root: draining from the tail yields
    // execution order goto_door, open_door, walk_thru_door
    assert_eq!(
        plan.simple_print_tasks(),
        vec![
            "walk_thru_door".to_owned(),
            "open_door".to_owned(),
            "goto_door".to_owned()
        ]
    );
    assert_eq!(
        plan.decompose_tasks(),
        vec![
            "walk_thru_door".to_owned(),
            "open_door".to_owned(),
            "goto_door".to_owned()
        ]
    );
}

#[test]
fn stored_plan_keeps_the_cheaper_cost() {
    // two one-step ways to the goal at different costs, in both list orders
    for order in [false, true] {
        let mut registry = TaskRegistry::new();
        registry.task(
            "cheap",
            Requirements::new().req_equals("done", b(false)).build(),
            WorldState::new().add("done", b(true)).build(),
            Num::whole(1),
        );
        registry.task(
            "pricey",
            Requirements::new().req_equals("done", b(false)).build(),
            WorldState::new().add("done", b(true)).build(),
            Num::whole(5),
        );
        let goal = Goal::new(
            "Be Done",
            Requirements::new().req_equals("done", b(true)).build(),
            Num::whole(1),
        );
        let tasks = if order {
            vec![Task::primitive("cheap"), Task::primitive("pricey")]
        } else {
            vec![Task::primitive("pricey"), Task::primitive("cheap")]
        };
        let mut gen = TimeSlicedTreeGen::new_initialized(tasks, vec![goal.clone()]);
        gen.generate_to_completion(
            &registry,
            &WorldState::new().add("done", b(false)).build(),
            Some(4),
        );
        let plan = gen.get_plan(&goal.name).expect("a plan");
        assert_eq!(plan.cost, Num::whole(1));
        assert_eq!(plan.tasks.len(), 1);
    }
}

#[test]
fn recursion_guard_bounds_alternation() {
    // two tasks that undo each other could alternate forever; the guard
    // and the depth limit end the search with no plan
    let mut registry = TaskRegistry::new();
    registry.task(
        "open",
        Requirements::new().req_equals("lid", b(false)).build(),
        WorldState::new().add("lid", b(true)).build(),
        Num::whole(1),
    );
    registry.task(
        "close",
        Requirements::new().req_equals("lid", b(true)).build(),
        WorldState::new().add("lid", b(false)).build(),
        Num::whole(1),
    );
    let goal = Goal::new(
        "Impossible",
        Requirements::new().req_equals("nonexistent", b(true)).build(),
        Num::whole(1),
    );
    let mut gen = TimeSlicedTreeGen::new_initialized(
        vec![Task::primitive("open"), Task::primitive("close")],
        vec![goal.clone()],
    );
    gen.generate_to_completion(
        &registry,
        &WorldState::new().add("lid", b(false)).build(),
        Some(16),
    );
    assert!(gen.get_plan(&goal.name).is_none());
}

#[test]
fn generation_is_deterministic() {
    let build = || {
        let registry = door_registry();
        let goal = Goal::new(
            "Be in room B",
            Requirements::new().req_equals("room", s("B")).build(),
            Num::whole(1),
        );
        let mut gen = TimeSlicedTreeGen::new_initialized(door_tasks(), vec![goal.clone()]);
        gen.generate_to_completion(&registry, &door_world(), Some(8));
        let plan = gen.get_plan(&goal.name).expect("a plan").clone();
        (plan.simple_print_tasks(), plan.cost)
    };
    let first = build();
    let second = build();
    assert_eq!(first.0, second.0);
    assert_eq!(first.1, second.1);
}

#[test]
fn second_completion_run_changes_nothing() {
    let registry = door_registry();
    let goal = Goal::new(
        "Be in room B",
        Requirements::new().req_equals("room", s("B")).build(),
        Num::whole(1),
    );
    let mut gen = TimeSlicedTreeGen::new_initialized(door_tasks(), vec![goal.clone()]);
    gen.generate_to_completion(&registry, &door_world(), Some(8));
    let first = gen.get_plan(&goal.name).expect("a plan").clone();
    // a second full pass re-seeds and re-searches, but every candidate it
    // finds was already weighed: the stored plan stays exactly
    gen.generate_to_completion(&registry, &door_world(), Some(8));
    let second = gen.get_plan(&goal.name).expect("a plan");
    assert_eq!(second.simple_print_tasks(), first.simple_print_tasks());
    assert_eq!(second.cost, first.cost);
}

#[test]
fn highest_utility_goal_is_pursued() {
    let mut registry = TaskRegistry::new();
    registry.task(
        "act",
        Requirements::new().req_equals("done", b(false)).build(),
        WorldState::new().add("done", b(true)).build(),
        Num::whole(1),
    );
    let minor = Goal::new(
        "Minor",
        Requirements::new().req_equals("done", b(true)).build(),
        Num::whole(1),
    );
    let major = Goal::new(
        "Major",
        Requirements::new().req_equals("done", b(true)).build(),
        Num::whole(5),
    );
    // whatever the input order, the goal of highest utility is planned for
    let mut gen = TimeSlicedTreeGen::new_initialized(
        vec![Task::primitive("act")],
        vec![major.clone(), minor.clone()],
    );
    gen.generate_to_completion(
        &registry,
        &WorldState::new().add("done", b(false)).build(),
        Some(4),
    );
    assert!(gen.get_plan("Major").is_some());
    assert!(gen.get_plan("Minor").is_none());
}

#[test]
fn no_goal_means_no_work() {
    let registry = door_registry();
    let mut gen = TimeSlicedTreeGen::new_initialized(door_tasks(), vec![]);
    gen.generate_to_completion(&registry, &door_world(), Some(8));
    assert!(gen.get_plan("anything").is_none());
}

#[test]
fn unregistered_tasks_are_silently_excluded() {
    let mut registry = TaskRegistry::new();
    registry.task(
        "real",
        Requirements::new().req_equals("x", b(false)).build(),
        WorldState::new().add("x", b(true)).build(),
        Num::whole(1),
    );
    let goal = Goal::new(
        "X",
        Requirements::new().req_equals("x", b(true)).build(),
        Num::whole(1),
    );
    // "phantom" is available but not registered: it is skipped, not fatal
    let mut gen = TimeSlicedTreeGen::new_initialized(
        vec![Task::primitive("phantom"), Task::primitive("real")],
        vec![goal.clone()],
    );
    gen.generate_to_completion(
        &registry,
        &WorldState::new().add("x", b(false)).build(),
        Some(4),
    );
    let plan = gen.get_plan(&goal.name).expect("a plan");
    assert_eq!(plan.simple_print_tasks(), vec!["real".to_owned()]);
}

#[test]
fn no_budget_runs_to_completion() {
    // with no duration granted, one time-sliced call behaves exactly like
    // generate_to_completion: the search runs until the frontier is empty
    let registry = door_registry();
    let goal = Goal::new(
        "Be in room B",
        Requirements::new().req_equals("room", s("B")).build(),
        Num::whole(1),
    );
    let mut gen = TimeSlicedTreeGen::new_initialized(door_tasks(), vec![goal.clone()]);
    gen.generate_for_duration(&registry, &door_world(), None, Some(8));
    let plan = gen.get_plan(&goal.name).expect("a plan");
    assert_eq!(plan.tasks.len(), 3);
    assert_eq!(plan.cost, Num::whole(3));
}

#[test]
fn composite_tasks_seed_no_nodes() {
    // a composite may pass the precondition check, but only primitives
    // resolve to descriptors, so it roots no search node
    let registry = door_registry();
    let goal = Goal::new(
        "Be in room B",
        Requirements::new().req_equals("room", s("B")).build(),
        Num::whole(1),
    );
    let combo = Task::macro_(door_tasks(), "door_routine");
    let mut gen = TimeSlicedTreeGen::new_initialized(vec![combo], vec![goal.clone()]);
    gen.generate_to_completion(&registry, &door_world(), Some(8));
    assert!(gen.get_plan(&goal.name).is_none());
}

#[test]
fn time_sliced_generation_resumes() {
    let registry = door_registry();
    let goal = Goal::new(
        "Be in room B",
        Requirements::new().req_equals("room", s("B")).build(),
        Num::whole(1),
    );
    let mut gen = TimeSlicedTreeGen::new_initialized(door_tasks(), vec![goal.clone()]);
    // a generous budget lets the search finish within the slices
    for _ in 0..64 {
        gen.generate_for_duration(
            &registry,
            &door_world(),
            Some(std::time::Duration::from_millis(50)),
            Some(8),
        );
        if gen.get_plan(&goal.name).is_some() {
            break;
        }
    }
    let plan = gen.get_plan(&goal.name).expect("a plan");
    assert_eq!(plan.tasks.len(), 3);
    assert_eq!(plan.cost, Num::whole(3));
}
