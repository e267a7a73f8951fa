use rgoap::{plan, Action, State};

#[test]
fn test_edge_cases() {
    let mut action = Action::new("action".to_string(), 1);
    action.pre_conditions.insert("has_something".to_string(), true);
    action.post_conditions.insert("is_winning".to_string(), true);

    let actions = [action];

    let mut initial_state = State::new();
    initial_state.insert("has_something".to_string(), false);
    initial_state.insert("is_winning".to_string(), false);

    // No viable plan.
    {
        let mut goal_state = State::new();
        goal_state.insert("is_winning".to_string(), true);

        let p = plan(&initial_state, &goal_state, &actions);
        assert!(p.is_none());
    }

    // The goal state is already reached in the initial state.
    {
        let mut goal_state = State::new();
        goal_state.insert("is_winning".to_string(), false);

        let p = plan(&initial_state, &goal_state, &actions);
        assert!(p.unwrap().len() == 0);
    }

    // The goal state uses a state missing from the initial state.
    {
        let mut goal_state = State::new();
        goal_state.insert("is_losing".to_string(), false);

        let p = plan(&initial_state, &goal_state, &actions);
        assert!(p.is_none());
    }
}

#[test]
fn dog_scenario_plans_in_order() {
    let mut walk_to_dog = Action::new("walk_to_dog".to_string(), 1);
    walk_to_dog.pre_conditions.insert("dog_person".to_string(), true);
    walk_to_dog.post_conditions.insert("near_dog".to_string(), true);

    let mut pet_dog = Action::new("pet_dog".to_string(), 1);
    pet_dog.pre_conditions.insert("near_dog".to_string(), true);
    pet_dog.post_conditions.insert("dog_happy".to_string(), true);

    let mut dog_wiggles_tail = Action::new("dog_wiggles_tail".to_string(), 1);
    dog_wiggles_tail.pre_conditions.insert("dog_happy".to_string(), true);
    dog_wiggles_tail.post_conditions.insert("tails_wiggling".to_string(), true);

    let possible_actions = [walk_to_dog, pet_dog, dog_wiggles_tail];

    let mut initial_state = State::new();
    initial_state.insert("near_dog".to_string(), false);
    initial_state.insert("dog_person".to_string(), true);
    initial_state.insert("dog_happy".to_string(), false);
    initial_state.insert("tails_wiggling".to_string(), false);

    let mut goal_state = State::new();
    goal_state.insert("tails_wiggling".to_string(), true);

    let planned = plan(&initial_state, &goal_state, &possible_actions).unwrap();
    let names: Vec<String> = planned
        .iter()
        .map(|&i| possible_actions[i].name.clone())
        .collect();
    let expected = vec![
        "walk_to_dog".to_string(),
        "pet_dog".to_string(),
        "dog_wiggles_tail".to_string(),
    ];
    assert_eq!(names, expected);
}

#[test]
fn cheaper_route_wins() {
    let mut expensive = Action::new("expensive".to_string(), 5);
    expensive.post_conditions.insert("done".to_string(), true);

    let mut step_one = Action::new("step_one".to_string(), 1);
    step_one.post_conditions.insert("mid".to_string(), true);

    let mut step_two = Action::new("step_two".to_string(), 1);
    step_two.pre_conditions.insert("mid".to_string(), true);
    step_two.post_conditions.insert("done".to_string(), true);

    let actions = [expensive, step_one, step_two];

    let mut initial_state = State::new();
    initial_state.insert("done".to_string(), false);

    let mut goal_state = State::new();
    goal_state.insert("done".to_string(), true);

    let p = plan(&initial_state, &goal_state, &actions).unwrap();
    assert_eq!(p, vec![1usize, 2usize]);
}

#[test]
fn replanning_is_deterministic() {
    let mut forward = Action::new("forward".to_string(), 2);
    forward.post_conditions.insert("there".to_string(), true);

    let mut jump = Action::new("jump".to_string(), 2);
    jump.post_conditions.insert("there".to_string(), true);

    let actions = [forward, jump];

    let mut initial_state = State::new();
    initial_state.insert("there".to_string(), false);

    let mut goal_state = State::new();
    goal_state.insert("there".to_string(), true);

    let first = plan(&initial_state, &goal_state, &actions);
    let second = plan(&initial_state, &goal_state, &actions);
    assert_eq!(first, second);
    assert!(first.is_some());
}

#[test]
fn empty_goal_needs_no_actions() {
    let initial_state = State::new();
    let goal_state = State::new();
    let actions: [Action; 0] = [];
    let p = plan(&initial_state, &goal_state, &actions);
    assert_eq!(p, Some(vec![]));
}

#[test]
fn zero_cost_actions_do_not_hang_the_search() {
    let mut free = Action::new("free".to_string(), 0);
    free.post_conditions.insert("spun".to_string(), true);

    let mut finish = Action::new("finish".to_string(), 1);
    finish.pre_conditions.insert("spun".to_string(), true);
    finish.post_conditions.insert("done".to_string(), true);

    let actions = [free, finish];

    let mut initial_state = State::new();
    initial_state.insert("done".to_string(), false);

    let mut goal_state = State::new();
    goal_state.insert("done".to_string(), true);

    let p = plan(&initial_state, &goal_state, &actions).unwrap();
    assert_eq!(p, vec![0usize, 1usize]);
}

#[test]
fn state_insert_overwrites() {
    let mut s = State::new();
    s.insert("a".to_string(), true);
    s.insert("a".to_string(), false);
    assert_eq!(s.get(&"a".to_string()), Some(false));
    assert_eq!(s.get(&"b".to_string()), None);
}

#[test]
fn mismatch_count_counts_missing_and_wrong() {
    let mut s = State::new();
    s.insert("a".to_string(), true);
    s.insert("b".to_string(), false);

    let mut t = State::new();
    t.insert("a".to_string(), false);
    t.insert("b".to_string(), false);
    t.insert("c".to_string(), true);

    assert_eq!(s.mismatch_count(&t), 2);
    assert!(!s.matches(&t));
    assert!(s.matches(&State::new()));
}

#[test]
fn apply_overwrites_postconditions() {
    let mut s = State::new();
    s.insert("a".to_string(), false);

    let mut act = Action::new("act".to_string(), 0);
    act.post_conditions.insert("a".to_string(), true);
    act.post_conditions.insert("b".to_string(), true);

    let r = s.apply(&act);
    assert_eq!(r.get(&"a".to_string()), Some(true));
    assert_eq!(r.get(&"b".to_string()), Some(true));
    assert_eq!(s.get(&"a".to_string()), Some(false));
}

#[test]
fn action_new_starts_empty() {
    let a = Action::new("x".to_string(), 3);
    assert_eq!(a.name, "x".to_string());
    assert_eq!(a.cost, 3);
    assert_eq!(a.pre_conditions.mismatch_count(&a.post_conditions), 0);
}
