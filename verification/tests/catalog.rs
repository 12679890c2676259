//! The task catalog: identity, decomposition, and the derived pre- and
//! postconditions of composite tasks.

use htn_planner::data::{Num, Requirements, Variant, WorldState};
use htn_planner::tasks::{SimpleTaskData, Task, TaskRegistry};

fn b(v: bool) -> Variant {
    Variant::Bool(v)
}

fn simple_registry() -> TaskRegistry {
    let mut registry = TaskRegistry::new();
    registry.task(
        "boil",
        Requirements::new().req_equals("has_water", b(true)).build(),
        WorldState::new().add("water_hot", b(true)).build(),
        Num::whole(1),
    );
    registry.task(
        "brew",
        Requirements::new().req_equals("water_hot", b(true)).build(),
        WorldState::new().add("tea_ready", b(true)).build(),
        Num::whole(2),
    );
    registry
}

#[test]
fn task_names_and_decomposition() {
    let t = Task::primitive("boil");
    assert_eq!(t.name(), "boil");
    assert_eq!(t.decompose(), vec!["boil".to_owned()]);

    let seq = Task::macro_(vec![Task::primitive("boil"), Task::primitive("brew")], "make_tea");
    assert_eq!(seq.name(), "make_tea");
    assert_eq!(seq.decompose(), vec!["boil".to_owned(), "brew".to_owned()]);

    let nested = Task::macro_(vec![seq, Task::primitive("serve")], "tea_service");
    assert_eq!(
        nested.decompose(),
        vec!["boil".to_owned(), "brew".to_owned(), "serve".to_owned()]
    );

    let flat = Task::decompose_iter(&vec![Task::primitive("a"), Task::primitive("b")]);
    assert_eq!(flat, vec!["a".to_owned(), "b".to_owned()]);
}

#[test]
fn registry_lookup() {
    let registry = simple_registry();
    assert!(registry.get_named("boil").is_some());
    assert!(registry.get_named("missing").is_none());
    assert!(registry.get_task(&Task::primitive("brew")).is_some());
    assert!(registry.get_task(&Task::primitive("nope")).is_none());
    // a composite has no descriptor of its own
    let combo = Task::macro_(vec![Task::primitive("boil")], "combo");
    assert!(registry.get_task(&combo).is_none());
}

#[test]
fn primitive_pre_and_postconditions() {
    let registry = simple_registry();
    let t = Task::primitive("boil");
    let (pre, post) = registry.pre_and_postcon(&t).expect("registered");
    assert!(pre.validate(&WorldState::new().add("has_water", b(true)).build()));
    assert!(!pre.validate(&WorldState::new().build()));
    assert_eq!(post.get("water_hot"), Some(b(true)));
    assert!(registry.precon(&Task::primitive("missing")).is_none());
    assert!(registry.postcon(&Task::primitive("missing")).is_none());
}

#[test]
fn composite_conditions_fold_over_the_chain() {
    let registry = simple_registry();
    let chain = Task::macro_(vec![Task::primitive("boil"), Task::primitive("brew")], "make_tea");

    // boil produces the water_hot fact brew needs, so the net precondition
    // asks only for water
    let pre = registry.precon(&chain).expect("resolves");
    assert!(pre.validate(&WorldState::new().add("has_water", b(true)).build()));
    assert!(!pre.validate(&WorldState::new().add("water_hot", b(true)).build()));

    // the net effect carries both steps' facts
    let post = registry.postcon(&chain).expect("resolves");
    assert_eq!(post.get("water_hot"), Some(b(true)));
    assert_eq!(post.get("tea_ready"), Some(b(true)));

    // a composite standing on an unregistered name resolves to nothing
    let broken = Task::macro_(
        vec![Task::primitive("boil"), Task::primitive("ghost")],
        "broken",
    );
    assert!(registry.precon(&broken).is_none());
    assert!(registry.postcon(&broken).is_none());
}

#[test]
fn custom_task_registration() {
    let mut registry = TaskRegistry::new();
    let data = SimpleTaskData::new(
        Requirements::new().req_has("ready").build(),
        WorldState::new().add("done", b(true)).build(),
        Num::scaled(15000),
    );
    registry.custom_task("finish", data);
    let found = registry.get_named("finish").expect("registered");
    let world = WorldState::new().add("any", b(true)).build();
    assert_eq!(found.cost(&world), Num::scaled(15000));
    assert_eq!(found.postconditions().get("done"), Some(b(true)));
}
