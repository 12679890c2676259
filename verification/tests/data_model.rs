//! The fact model: typed values, world states and requirement sets.

use htn_planner::data::{Num, Predicate, Requirements, UniqueName, Variant, WorldState};

fn b(v: bool) -> Variant {
    Variant::Bool(v)
}

fn s(text: &str) -> Variant {
    Variant::String(UniqueName::new(text))
}

fn num_whole(n: i64) -> Variant {
    Variant::Number(Num::whole(n))
}

fn num_scaled(units: i64) -> Variant {
    Variant::Number(Num::scaled(units))
}

#[test]
fn test_truth_equality() {
    let bool_true = Variant::Bool(true);
    let bool_false = Variant::Bool(false);
    let string_empty = s("");
    let string_test = s("test");

    // bools matrix
    assert_eq!(bool_true, Variant::Bool(true));
    assert_eq!(bool_false, Variant::Bool(false));

    assert_ne!(bool_true, bool_false);
    assert_ne!(bool_true, Variant::Bool(false));
    assert_ne!(bool_false, Variant::Bool(true));

    // strings matrix
    assert_eq!(string_empty, s(""));
    assert_eq!(string_test, s("test"));

    assert_ne!(string_empty, string_test);

    // cross comparisons
    assert_ne!(bool_true, string_empty);
    assert_ne!(bool_true, string_test);

    assert_ne!(bool_false, string_empty);
    assert_ne!(bool_false, string_test);

    assert_ne!(string_empty, bool_true);
    assert_ne!(string_empty, bool_false);

    assert_ne!(string_test, bool_true);
    assert_ne!(string_test, bool_false);
}

#[test]
fn test_world_validation() {
    let truths_base = WorldState::new()
        .add("safe", b(true))
        .add("running", b(false))
        .add("happy", b(true))
        .build();
    let truths_valid = WorldState::new().add("safe", b(true)).add("happy", b(true)).build();
    let truths_invalid = WorldState::new().add("running", b(true)).build();

    assert!(truths_base.validate(&truths_valid));
    assert!(!truths_base.validate(&truths_invalid));

    assert!(!truths_valid.validate(&truths_base));
    assert!(!truths_valid.validate(&truths_invalid));

    assert!(!truths_invalid.validate(&truths_base));
    assert!(!truths_invalid.validate(&truths_valid));

    let concatenated_set = WorldState::new().add("running", b(true)).build();
    let super_set = truths_base.concat(&concatenated_set);
    assert!(!truths_base.validate(&truths_invalid)); // concating does not change the base
    assert!(super_set.validate(&truths_invalid)); // the concatenation is valid for both
    assert!(super_set.validate(&truths_valid)); // the concatenation is valid for both
}

#[test]
fn requirements_validation() {
    let req = Requirements::new()
        .req_equals("bool_eq", b(true))
        .req_equals("str_eq", s("something"))
        .req_equals("num_eq", num_scaled(31415))
        .req_has("any_key")
        .req_greater("num_grt", num_whole(0))
        .req_less("num_lst", num_whole(0))
        .build();

    let valid_world = WorldState::new()
        .add("bool_eq", b(true))
        .add("str_eq", s("something"))
        .add("num_eq", num_scaled(31415))
        .add("any_key", num_whole(25))
        .add("num_grt", num_whole(10))
        .add("num_lst", num_scaled(-123600))
        .build();

    let invalid_world = WorldState::new()
        .add("bool_eq", b(false))
        .add("str_eq", s("else"))
        .add("num_eq", num_whole(3))
        .add("num_grt", num_whole(-10))
        .add("num_lst", num_scaled(123600))
        .build();

    assert!(req.validate(&valid_world));
    assert!(!req.validate(&WorldState::new()));
    assert!(!req.validate(&invalid_world));
}

#[test]
fn cross_type_values_never_equal_or_ordered() {
    // "matching" textual representations are still unequal across tags
    assert_ne!(b(true), s("true"));
    assert_ne!(num_whole(1), s("1"));
    assert_ne!(b(true), num_whole(1));

    // an order predicate is never satisfied across tags
    let gt_one = Predicate::Order(std::cmp::Ordering::Greater, num_whole(1));
    assert!(!gt_one.validate(s("2")));
    assert!(!gt_one.validate(b(true)));
    assert!(gt_one.validate(num_whole(2)));
}

#[test]
fn empty_requirements_vacuous_and_empty_world_fails() {
    let empty_req = Requirements::new();
    let world = WorldState::new().add("k", b(true)).build();
    assert!(empty_req.validate(&world));
    assert!(empty_req.validate(&WorldState::new()));

    let nonempty = Requirements::new().req_has("k").build();
    assert!(!nonempty.validate(&WorldState::new()));
}

#[test]
fn has_entry_ignores_value() {
    let req = Requirements::new().req_has("key").build();
    assert!(req.validate(&WorldState::new().add("key", b(false)).build()));
    assert!(req.validate(&WorldState::new().add("key", s("anything")).build()));
    assert!(req.validate(&WorldState::new().add("key", num_whole(-7)).build()));
}

#[test]
fn world_insert_erase_get() {
    let mut w = WorldState::new();
    assert!(w.get("k").is_none());
    assert!(w.insert("k", b(true)).is_none());
    let old = w.insert("k", s("v"));
    assert_eq!(old, Some(b(true)));
    assert_eq!(w.get("k"), Some(s("v")));
    w.erase("k");
    assert!(w.get("k").is_none());
    w.insert("a", b(true));
    w.clear();
    assert!(w.get("a").is_none());
}

#[test]
fn concat_is_right_biased() {
    let left = WorldState::new().add("x", num_whole(1)).add("y", b(true)).build();
    let right = WorldState::new().add("x", num_whole(2)).build();
    let merged = left.concat(&right);
    assert_eq!(merged.get("x"), Some(num_whole(2)));
    assert_eq!(merged.get("y"), Some(b(true)));
}

#[test]
fn consume_and_unmet_requirements() {
    let req = Requirements::new()
        .req_equals("done", b(true))
        .req_greater("count", num_whole(3))
        .build();
    let world = WorldState::new()
        .add("done", b(true))
        .add("count", num_whole(2))
        .add("extra", b(false))
        .build();

    // "done" is satisfied and absorbed; "count" fails and stays tracked
    let reduced = req.consume(&world);
    assert!(reduced.get("done").is_none());
    assert_eq!(reduced.get("count"), Some(num_whole(2)));
    assert_eq!(reduced.get("extra"), Some(b(false)));

    let unmet = req.unmet_requirements(&world);
    assert!(unmet.validate(&WorldState::new().add("count", num_whole(5)).build()));
    assert!(!unmet.validate(&world));
}

#[test]
fn string_order_is_lexicographic() {
    let req = Requirements::new().req_greater("name", s("apple")).build();
    assert!(req.validate(&WorldState::new().add("name", s("banana")).build()));
    assert!(!req.validate(&WorldState::new().add("name", s("aardvark")).build()));
    assert!(!req.validate(&WorldState::new().add("name", s("apple")).build()));

    let less = Requirements::new().req_less("flag", b(true)).build();
    assert!(less.validate(&WorldState::new().add("flag", b(false)).build()));
    assert!(!less.validate(&WorldState::new().add("flag", b(true)).build()));
}

#[test]
fn num_saturates_and_compares() {
    let big = Num::scaled(i64::MAX);
    let one = Num::scaled(1);
    assert_eq!(big.saturating_add(one), Num::scaled(i64::MAX));
    let small = Num::scaled(i64::MIN);
    assert_eq!(small.saturating_add(Num::scaled(-1)), Num::scaled(i64::MIN));
    assert_eq!(Num::whole(2).saturating_add(Num::whole(3)), Num::whole(5));
    assert!(Num::whole(-1).lt(Num::whole(0)));
    assert!(!Num::whole(0).lt(Num::whole(0)));
}

#[test]
fn world_to_requirements_demands_equality() {
    let world = WorldState::new().add("a", b(true)).add("n", num_whole(4)).build();
    let req = world.to_requirements();
    assert!(req.validate(&world));
    let off = WorldState::new().add("a", b(true)).add("n", num_whole(5)).build();
    assert!(!req.validate(&off));
}
